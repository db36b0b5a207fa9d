//! The order of insertion does not matter: what a finished tree records at
//! each path depends only on which entries were inserted. Where no two
//! entries of one directory have the same size, the finished trees are the
//! same tree, list by list.

use vstd::prelude::*;
use vstd::seq_lib::{commutative_foldl, lemma_fold_left_permutation};
use crate::model::{
    child_index, child_sizes, countable, exact_total, finalized, insert_spec, is_skipped, leaf,
    lemma_child_index, lemma_child_index_is, lemma_sorted_total, lemma_total_size_is_capped_sum,
    path_components, sorted_desc, split_at_slashes, Tree,
};
use crate::order::{
    key_le, key_size, lemma_ranked, lemma_ranked_onto, lemma_ranked_positions, ranked, size_keys,
};
use crate::shape::{
    lemma_finalized_keeps_paths_nested, lemma_insert_keeps_paths_nested, paths_nested,
};
use crate::model::join_path;
use vstd::relations::{sorted_by, total_ordering};
use vstd::seq_lib::lemma_sorted_unique;

verus! {

/// A path inside a tree: the names from a child of the root downwards.
pub type Steps = Seq<Seq<char>>;

/// The size that the tree records at `path`: of the root for the empty
/// path, of nothing where the path leads nowhere.
pub open spec fn size_at(t: Tree, path: Steps) -> Option<u64>
    decreases path.len(),
{
    if path.len() == 0 {
        Some(t.size)
    } else {
        let pos = child_index(t.children, path[0]);
        if pos < t.children.len() {
            size_at(t.children[pos], path.drop_first())
        } else {
            None
        }
    }
}

/// Two trees record the same sizes at the same paths.
pub open spec fn same_entries(a: Tree, b: Tree) -> bool {
    forall|path: Steps| size_at(a, path) == size_at(b, path)
}

/// No two children of one node have the same name, at any level.
pub open spec fn distinct_names(t: Tree) -> bool
    decreases t,
{
    &&& forall|i: int, j: int|
        0 <= i < j < t.children.len() ==> (#[trigger] t.children[i]).name != (
        #[trigger] t.children[j]).name
    &&& forall|i: int| 0 <= i < t.children.len() ==> distinct_names(#[trigger] t.children[i])
}

/// `path` is a beginning of `steps`, neither empty nor all of it.
pub open spec fn leads_towards(path: Steps, steps: Steps) -> bool {
    0 < path.len() < steps.len() && path == steps.subrange(0, path.len() as int)
}

/// What a tree records at `path` after the insertion of `steps` with
/// `size`, where it recorded `before`: at the end of the steps the size
/// inserted; on the way there what was there, or zero for a directory made
/// on the way; elsewhere what was there.
pub open spec fn after_insert(before: Option<u64>, steps: Steps, size: u64, path: Steps) -> Option<u64> {
    if steps.len() > 0 && path == steps {
        Some(size)
    } else if leads_towards(path, steps) {
        match before {
            Some(there) => Some(there),
            None => Some(0u64),
        }
    } else {
        before
    }
}

/// None of the steps from `at` on is one that insertion passes over.
pub open spec fn plain_from(steps: Steps, at: int) -> bool {
    forall|i: int| at <= i < steps.len() ==> !is_skipped(#[trigger] steps[i])
}

/// Looking a name up depends on the names alone.
proof fn lemma_child_index_by_names(a: Seq<Tree>, b: Seq<Tree>, name: Seq<char>)
    requires
        a.len() == b.len(),
        forall|i: int| 0 <= i < a.len() ==> (#[trigger] a[i]).name == b[i].name,
    ensures
        child_index(a, name) == child_index(b, name),
{
    lemma_child_index(a, name);
    let pos = child_index(a, name);
    assert forall|i: int| 0 <= i < pos implies (#[trigger] b[i]).name != name by {
        assert(a[i].name != name);
    }
    if pos < a.len() {
        assert(a[pos].name == b[pos].name);
    }
    lemma_child_index_is(b, name, pos);
}

/// Looking a name up after a child of another name was appended.
proof fn lemma_child_index_push(kids: Seq<Tree>, extra: Tree, name: Seq<char>)
    ensures
        child_index(kids, name) < kids.len() ==> child_index(kids.push(extra), name)
            == child_index(kids, name),
        child_index(kids, name) >= kids.len() && extra.name != name ==> child_index(
            kids.push(extra),
            name,
        ) == kids.len() + 1,
        child_index(kids, name) >= kids.len() && extra.name == name ==> child_index(
            kids.push(extra),
            name,
        ) == kids.len(),
{
    lemma_child_index(kids, name);
    let more = kids.push(extra);
    let pos = child_index(kids, name);
    if pos < kids.len() {
        assert(more[pos] == kids[pos]);
        assert forall|i: int| 0 <= i < pos implies (#[trigger] more[i]).name != name by {
            assert(more[i] == kids[i]);
        }
        lemma_child_index_is(more, name, pos);
    } else {
        assert forall|i: int| 0 <= i < kids.len() implies (#[trigger] more[i]).name != name by {
            assert(more[i] == kids[i]);
        }
        if extra.name == name {
            lemma_child_index_is(more, name, kids.len() as int);
        } else {
            lemma_child_index_is(more, name, (kids.len() + 1) as int);
        }
    }
}

/// Insertion keeps the name, the path and the size of the node it starts
/// from.
pub proof fn lemma_insert_keeps_node(t: Tree, steps: Steps, at: int, size: u64)
    ensures
        insert_spec(t, steps, at, size).name == t.name,
        insert_spec(t, steps, at, size).path == t.path,
        insert_spec(t, steps, at, size).size == t.size,
    decreases steps.len() - at,
{
    if 0 <= at < steps.len() && is_skipped(steps[at]) {
        lemma_insert_keeps_node(t, steps, at + 1, size);
    }
}


/// A path that starts with `head` relates to steps that start with `head`
/// as its rest relates to their rest.
proof fn lemma_paths_by_rest(path: Steps, steps: Steps)
    requires
        path.len() > 0,
        steps.len() > 0,
        path[0] == steps[0],
    ensures
        path == steps <==> path.drop_first() == steps.drop_first(),
        path.len() > 1 ==> (leads_towards(path, steps) <==> leads_towards(
            path.drop_first(),
            steps.drop_first(),
        )),
        path.len() == 1 ==> (leads_towards(path, steps) <==> steps.len() > 1),
{
    let tail = path.drop_first();
    let rest = steps.drop_first();
    if tail == rest {
        assert(path =~= seq![path[0]] + tail);
        assert(steps =~= seq![steps[0]] + rest);
    }
    if path.len() < steps.len() {
        let cut = steps.subrange(0, path.len() as int);
        let cut_rest = rest.subrange(0, tail.len() as int);
        assert(cut.drop_first() =~= cut_rest);
        if tail == cut_rest {
            assert(path =~= seq![path[0]] + tail);
            assert(cut =~= seq![steps[0]] + cut_rest);
        }
        if path.len() == 1 {
            assert(path =~= cut);
        }
    }
}

/// What a tree records after one insertion.
pub proof fn lemma_insert_size_at(t: Tree, steps: Steps, at: int, size: u64, path: Steps)
    requires
        0 <= at <= steps.len(),
        plain_from(steps, at),
    ensures
        size_at(insert_spec(t, steps, at, size), path) == after_insert(
            size_at(t, path),
            steps.subrange(at, steps.len() as int),
            size,
            path,
        ),
    decreases steps.len() - at,
{
    let rest = steps.subrange(at, steps.len() as int);
    let before = size_at(t, path);
    if at < steps.len() && path.len() > 0 {
        let name = steps[at];
        assert(rest[0] == name);
        assert(!is_skipped(name));
        let head = path[0];
        let tail = path.drop_first();
        let pos = child_index(t.children, name);
        let extra = leaf(name, crate::model::join_path(t.path, name), 0);
        let kids = if pos < t.children.len() {
            t.children
        } else {
            t.children.push(extra)
        };
        let grown = if at + 1 == steps.len() {
            Tree { size, ..kids[pos] }
        } else {
            insert_spec(kids[pos], steps, at + 1, size)
        };
        let after = insert_spec(t, steps, at, size);
        lemma_child_index(t.children, name);
        lemma_child_index(t.children, head);
        lemma_child_index_push(t.children, extra, head);
        lemma_insert_keeps_node(kids[pos], steps, at + 1, size);
        assert(after.children == kids.update(pos, grown));
        assert(grown.name == kids[pos].name);
        lemma_child_index_by_names(after.children, kids, head);
        let found = child_index(kids, head);
        if head != name {
            if found < kids.len() {
                assert(found != pos);
                assert(after.children[found] == t.children[found]);
            }
            assert(path != rest);
            if leads_towards(path, rest) {
                assert(rest.subrange(0, path.len() as int)[0] == rest[0]);
            }
        } else {
            assert(found == pos);
            assert(size_at(after, path) == size_at(grown, tail));
            let rest_tail = steps.subrange(at + 1, steps.len() as int);
            assert(rest.drop_first() =~= rest_tail);
            lemma_paths_by_rest(path, rest);
            let there = size_at(kids[pos], tail);
            if pos < t.children.len() {
                assert(there == before);
            } else {
                assert(before is None);
                if tail.len() > 0 {
                    assert(there is None);
                }
            }
            if at + 1 == steps.len() {
                if tail.len() > 0 {
                    assert(size_at(grown, tail) == there);
                    assert(path.len() > rest.len());
                } else {
                    assert(tail =~= rest_tail);
                }
                } else {
                lemma_insert_size_at(kids[pos], steps, at + 1, size, tail);
                assert(size_at(grown, tail) == after_insert(there, rest_tail, size, tail));
                assert(rest.len() > 1);
                if tail.len() == 0 {
                    assert(there == Some(kids[pos].size));
                    assert(leads_towards(path, rest));
                    assert(!leads_towards(tail, rest_tail));
                    assert(tail != rest_tail);
                    assert(path != rest);
                } else {
                    assert(leads_towards(path, rest) == leads_towards(tail, rest_tail));
                    assert((path == rest) == (tail == rest_tail));
                    assert(there == before);
                }
                }
        }
    }
}


/// Inserting an entry a second time changes nothing of what the tree
/// records.
pub proof fn lemma_insert_again(t: Tree, path: Seq<char>, size: u64)
    ensures
        same_entries(
            insert_spec(insert_spec(t, path_components(path), 0, size), path_components(path), 0, size),
            insert_spec(t, path_components(path), 0, size),
        ),
{
    let steps = path_components(path);
    let once = insert_spec(t, steps, 0, size);
    let twice = insert_spec(once, steps, 0, size);
    lemma_components_are_plain(path);
    assert(steps.subrange(0, steps.len() as int) =~= steps);
    assert forall|at: Steps| size_at(twice, at) == size_at(once, at) by {
        lemma_insert_size_at(t, steps, 0, size, at);
        lemma_insert_size_at(once, steps, 0, size, at);
    }
}

/// A later entry for the same place overrides an earlier one: the size
/// last written is the size recorded.
pub proof fn lemma_last_write_wins(t: Tree, path: Seq<char>, earlier: u64, later: u64)
    ensures
        same_entries(
            insert_spec(
                insert_spec(t, path_components(path), 0, earlier),
                path_components(path),
                0,
                later,
            ),
            insert_spec(t, path_components(path), 0, later),
        ),
        path_components(path).len() > 0 ==> size_at(
            insert_spec(t, path_components(path), 0, later),
            path_components(path),
        ) == Some(later),
{
    let steps = path_components(path);
    let first = insert_spec(t, steps, 0, earlier);
    let both = insert_spec(first, steps, 0, later);
    let only = insert_spec(t, steps, 0, later);
    lemma_components_are_plain(path);
    assert(steps.subrange(0, steps.len() as int) =~= steps);
    assert forall|at: Steps| size_at(both, at) == size_at(only, at) by {
        lemma_insert_size_at(t, steps, 0, earlier, at);
        lemma_insert_size_at(first, steps, 0, later, at);
        lemma_insert_size_at(t, steps, 0, later, at);
    }
    lemma_insert_size_at(t, steps, 0, later, steps);
}

/// An entry to insert: a relative path and the size to record at it.
pub type Entry = (Seq<char>, u64);

/// The tree after the entries are inserted one after the other.
pub open spec fn insert_all(t: Tree, entries: Seq<Entry>) -> Tree
    decreases entries.len(),
{
    if entries.len() == 0 {
        t
    } else {
        insert_spec(
            insert_all(t, entries.drop_last()),
            path_components(entries.last().0),
            0,
            entries.last().1,
        )
    }
}

/// Entries for one place carry one size.
pub open spec fn agreeing(entries: Seq<Entry>) -> bool {
    forall|i: int, j: int|
        0 <= i < entries.len() && 0 <= j < entries.len() && path_components(
            (#[trigger] entries[i]).0,
        ) == path_components((#[trigger] entries[j]).0) ==> entries[i].1 == entries[j].1
}

/// The size that the entries carry for the place `steps`.
pub open spec fn size_for(entries: Seq<Entry>, steps: Steps) -> u64 {
    entries[choose|i: int|
        0 <= i < entries.len() && path_components((#[trigger] entries[i]).0) == steps].1
}

/// How one more entry changes what is recorded at `path`, where the sizes
/// are those that `entries` carry.
pub open spec fn recorded(entries: Seq<Entry>, path: Steps) -> spec_fn(Option<u64>, Entry) -> Option<
    u64,
> {
    |before: Option<u64>, entry: Entry|
        after_insert(
            before,
            path_components(entry.0),
            size_for(entries, path_components(entry.0)),
            path,
        )
}

/// The components of a path hold none that insertion passes over.
pub proof fn lemma_components_are_plain(path: Seq<char>)
    ensures
        plain_from(path_components(path), 0),
{
    let pieces = split_at_slashes(path);
    let keep = |part: Seq<char>| !is_skipped(part);
    assert forall|i: int| 0 <= i < path_components(path).len() implies !is_skipped(
        #[trigger] path_components(path)[i],
    ) by {
        pieces.lemma_filter_pred(keep, i);
    }
}

proof fn lemma_recorded_commutes(entries: Seq<Entry>, path: Steps)
    ensures
        commutative_foldl(recorded(entries, path)),
{
    let f = recorded(entries, path);
    assert forall|x: Entry, y: Entry, v: Option<u64>| #[trigger] f(f(v, x), y) == f(f(v, y), x) by {
        let steps_x = path_components(x.0);
        let steps_y = path_components(y.0);
        let size_x = size_for(entries, steps_x);
        let size_y = size_for(entries, steps_y);
        assert(f(v, x) == after_insert(v, steps_x, size_x, path));
        assert(f(v, y) == after_insert(v, steps_y, size_y, path));
        assert(f(f(v, x), y) == after_insert(f(v, x), steps_y, size_y, path));
        assert(f(f(v, y), x) == after_insert(f(v, y), steps_x, size_x, path));
    }
}

/// What a tree records after entries taken from an agreeing collection
/// are inserted.
proof fn lemma_insert_all_size_at(t: Tree, all: Seq<Entry>, entries: Seq<Entry>, path: Steps)
    requires
        agreeing(all),
        forall|i: int| 0 <= i < entries.len() ==> all.contains(#[trigger] entries[i]),
    ensures
        size_at(insert_all(t, entries), path) == entries.fold_left(
            size_at(t, path),
            recorded(all, path),
        ),
    decreases entries.len(),
{
    if entries.len() > 0 {
        let earlier = entries.drop_last();
        let entry = entries.last();
        let steps = path_components(entry.0);
        assert forall|i: int| 0 <= i < earlier.len() implies all.contains(
            #[trigger] earlier[i],
        ) by {
            assert(earlier[i] == entries[i]);
        }
        lemma_insert_all_size_at(t, all, earlier, path);
        lemma_components_are_plain(entry.0);
        lemma_insert_size_at(insert_all(t, earlier), steps, 0, entry.1, path);
        assert(steps.subrange(0, steps.len() as int) =~= steps);
        assert(all.contains(entry));
        let k = choose|k: int| 0 <= k < all.len() && all[k] == entry;
        assert(path_components(all[k].0) == steps);
        let i = choose|i: int|
            0 <= i < all.len() && path_components((#[trigger] all[i]).0) == steps;
        assert(all[i].1 == all[k].1);
        assert(size_for(all, steps) == entry.1);
    }
}

/// Entries that agree, inserted in one order or in another, leave trees
/// that record the same sizes at the same paths.
pub proof fn lemma_insert_all_any_order(t: Tree, first: Seq<Entry>, second: Seq<Entry>)
    requires
        first.to_multiset() == second.to_multiset(),
        agreeing(first),
    ensures
        same_entries(insert_all(t, first), insert_all(t, second)),
{
    assert forall|path: Steps|
        size_at(insert_all(t, first), path) == size_at(insert_all(t, second), path) by {
        assert forall|i: int| 0 <= i < first.len() implies first.contains(
            #[trigger] first[i],
        ) by {}
        assert forall|i: int| 0 <= i < second.len() implies first.contains(
            #[trigger] second[i],
        ) by {
            assert(second.contains(second[i]));
            vstd::seq_lib::to_multiset_contains(second, second[i]);
            vstd::seq_lib::to_multiset_contains(first, second[i]);
        }
        lemma_insert_all_size_at(t, first, first, path);
        lemma_insert_all_size_at(t, first, second, path);
        lemma_recorded_commutes(first, path);
        lemma_fold_left_permutation(first, second, recorded(first, path), size_at(t, path));
    }
}


/// Insertion keeps sibling names distinct.
pub proof fn lemma_insert_keeps_names_distinct(t: Tree, steps: Steps, at: int, size: u64)
    requires
        distinct_names(t),
    ensures
        distinct_names(insert_spec(t, steps, at, size)),
    decreases steps.len() - at,
{
    if 0 <= at < steps.len() {
        if is_skipped(steps[at]) {
            lemma_insert_keeps_names_distinct(t, steps, at + 1, size);
        } else {
            let name = steps[at];
            let pos = child_index(t.children, name);
            let extra = leaf(name, crate::model::join_path(t.path, name), 0);
            let kids = if pos < t.children.len() {
                t.children
            } else {
                t.children.push(extra)
            };
            lemma_child_index(t.children, name);
            let grown = if at + 1 == steps.len() {
                Tree { size, ..kids[pos] }
            } else {
                insert_spec(kids[pos], steps, at + 1, size)
            };
            let after = insert_spec(t, steps, at, size);
            assert(after.children == kids.update(pos, grown));
            assert(distinct_names(kids[pos])) by {
                if pos < t.children.len() {
                    assert(distinct_names(t.children[pos]));
                }
            }
            lemma_insert_keeps_node(kids[pos], steps, at + 1, size);
            if at + 1 < steps.len() {
                lemma_insert_keeps_names_distinct(kids[pos], steps, at + 1, size);
            } else {
                assert(grown.children == kids[pos].children);
            }
            assert forall|i: int, j: int| 0 <= i < j < after.children.len() implies (
            #[trigger] after.children[i]).name != (#[trigger] after.children[j]).name by {
                assert(after.children[i].name == kids[i].name);
                assert(after.children[j].name == kids[j].name);
                if j < t.children.len() {
                    assert(t.children[i].name != t.children[j].name);
                } else {
                    assert(t.children[i].name != name);
                }
            }
            assert forall|i: int| 0 <= i < after.children.len() implies distinct_names(
                #[trigger] after.children[i],
            ) by {
                if i != pos {
                    assert(after.children[i] == t.children[i]);
                }
            }
        }
    }
}

/// Inserting entries one after the other keeps sibling names distinct.
pub proof fn lemma_insert_all_keeps_names_distinct(t: Tree, entries: Seq<Entry>)
    requires
        distinct_names(t),
    ensures
        distinct_names(insert_all(t, entries)),
    decreases entries.len(),
{
    if entries.len() > 0 {
        lemma_insert_all_keeps_names_distinct(t, entries.drop_last());
        lemma_insert_keeps_names_distinct(
            insert_all(t, entries.drop_last()),
            path_components(entries.last().0),
            0,
            entries.last().1,
        );
    }
}

/// Among distinct names, a name is found where it stands.
proof fn lemma_found_where_it_stands(kids: Seq<Tree>, at: int)
    requires
        0 <= at < kids.len(),
        forall|i: int, j: int|
            0 <= i < j < kids.len() ==> (#[trigger] kids[i]).name != (#[trigger] kids[j]).name,
    ensures
        child_index(kids, kids[at].name) == at,
{
    lemma_child_index_is(kids, kids[at].name, at);
}

/// Sorting changes nothing of what a tree records.
pub proof fn lemma_sorted_size_at(t: Tree, path: Steps)
    requires
        distinct_names(t),
        countable(t),
    ensures
        size_at(sorted_desc(t), path) == size_at(t, path),
    decreases path.len(),
{
    lemma_sorted_total(t);
    if path.len() > 0 {
        let name = path[0];
        let tail = path.drop_first();
        let kids = t.children;
        let sizes = child_sizes(kids);
        let order = ranked(size_keys(sizes));
        let sorted = sorted_desc(t).children;
        let pos = child_index(kids, name);
        lemma_child_index(kids, name);
        lemma_ranked(size_keys(sizes));
        lemma_ranked_positions(sizes);
        assert forall|k: int| 0 <= k < sorted.len() implies (#[trigger] sorted[k]).name
            == kids[order[k].1 as int].name by {
            let from = order[k].1 as int;
            assert(sorted[k] == sorted_desc(kids[from]));
            assert(countable(kids[from]));
            lemma_sorted_total(kids[from]);
        }
        if pos < kids.len() {
            lemma_ranked_onto(sizes, pos);
            let k = choose|k: int| 0 <= k < sizes.len() && (#[trigger] order[k]).1 == pos;
            assert forall|i: int| 0 <= i < k implies (#[trigger] sorted[i]).name != name by {
                let from = order[i].1 as int;
                assert(order[i].1 != order[k].1);
                if from < pos {
                    assert(kids[from].name != kids[pos].name);
                } else {
                    assert(kids[pos].name != kids[from].name);
                }
            }
            assert(sorted[k].name == name);
            lemma_child_index_is(sorted, name, k);
            assert(sorted[k] == sorted_desc(kids[pos]));
            assert(distinct_names(kids[pos]));
            assert(countable(kids[pos]));
            lemma_sorted_size_at(kids[pos], tail);
        } else {
            assert forall|i: int| 0 <= i < sorted.len() implies (#[trigger] sorted[i]).name
                != name by {
                let from = order[i].1 as int;
                assert(kids[from].name != name);
            }
            lemma_child_index_is(sorted, name, sorted.len() as int);
        }
    }
}

/// The names and sizes of a list of trees.
pub open spec fn labels(kids: Seq<Tree>) -> Seq<(Seq<char>, u64)> {
    Seq::new(kids.len(), |i: int| (kids[i].name, kids[i].size))
}

/// Adding a label's size to a sum.
pub open spec fn add_label_size() -> spec_fn(int, (Seq<char>, u64)) -> int {
    |sum: int, label: (Seq<char>, u64)| sum + label.1
}

proof fn lemma_labels_total(kids: Seq<Tree>)
    ensures
        labels(kids).fold_left(0, add_label_size()) == exact_total(kids),
    decreases kids.len(),
{
    if kids.len() > 0 {
        lemma_labels_total(kids.drop_last());
        assert(labels(kids).drop_last() =~= labels(kids.drop_last()));
    }
}

/// Two lists of trees with distinct names, in which every name has the
/// same size, have the same total size.
proof fn lemma_matched_totals(xs: Seq<Tree>, ys: Seq<Tree>)
    requires
        forall|i: int, j: int|
            0 <= i < j < xs.len() ==> (#[trigger] xs[i]).name != (#[trigger] xs[j]).name,
        forall|i: int, j: int|
            0 <= i < j < ys.len() ==> (#[trigger] ys[i]).name != (#[trigger] ys[j]).name,
        forall|i: int|
            0 <= i < xs.len() ==> child_index(ys, (#[trigger] xs[i]).name) < ys.len()
                && ys[child_index(ys, xs[i].name)].size == xs[i].size,
        forall|i: int|
            0 <= i < ys.len() ==> child_index(xs, (#[trigger] ys[i]).name) < xs.len()
                && xs[child_index(xs, ys[i].name)].size == ys[i].size,
    ensures
        exact_total(xs) == exact_total(ys),
{
    broadcast use vstd::multiset::group_multiset_axioms;

    let a = labels(xs);
    let b = labels(ys);
    assert(a.no_duplicates()) by {
        assert forall|i: int, j: int| 0 <= i < a.len() && 0 <= j < a.len() && i != j implies a[i]
            != a[j] by {
            if i < j {
                assert(xs[i].name != xs[j].name);
            } else {
                assert(xs[j].name != xs[i].name);
            }
        }
    }
    assert(b.no_duplicates()) by {
        assert forall|i: int, j: int| 0 <= i < b.len() && 0 <= j < b.len() && i != j implies b[i]
            != b[j] by {
            if i < j {
                assert(ys[i].name != ys[j].name);
            } else {
                assert(ys[j].name != ys[i].name);
            }
        }
    }
    a.lemma_multiset_has_no_duplicates();
    b.lemma_multiset_has_no_duplicates();
    assert forall|x: (Seq<char>, u64)| a.to_multiset().count(x) == b.to_multiset().count(x) by {
        vstd::seq_lib::to_multiset_contains(a, x);
        vstd::seq_lib::to_multiset_contains(b, x);
        if a.contains(x) {
            let i = choose|i: int| 0 <= i < a.len() && a[i] == x;
            let j = child_index(ys, xs[i].name);
            lemma_child_index(ys, xs[i].name);
            assert(b[j] == x);
            assert(b.contains(x));
        }
        if b.contains(x) {
            let i = choose|i: int| 0 <= i < b.len() && b[i] == x;
            let j = child_index(xs, ys[i].name);
            lemma_child_index(xs, ys[i].name);
            assert(a[j] == x);
            assert(a.contains(x));
        }
    }
    assert(a.to_multiset() =~= b.to_multiset());
    lemma_labels_total(xs);
    lemma_labels_total(ys);
    assert(commutative_foldl(add_label_size()));
    lemma_fold_left_permutation(a, b, add_label_size(), 0int);
}


/// Finalization keeps names, paths and shape.
pub proof fn lemma_finalized_keeps_names(t: Tree)
    requires
        distinct_names(t),
    ensures
        finalized(t).name == t.name,
        finalized(t).children.len() == t.children.len(),
        forall|i: int|
            0 <= i < t.children.len() ==> #[trigger] finalized(t).children[i] == finalized(
                t.children[i],
            ) && finalized(t).children[i].name == t.children[i].name,
        distinct_names(finalized(t)),
    decreases t,
{
    if t.children.len() > 0 {
        let f = finalized(t);
        assert forall|i: int| 0 <= i < t.children.len() implies #[trigger] f.children[i]
            == finalized(t.children[i]) && f.children[i].name == t.children[i].name
            && distinct_names(f.children[i]) by {
            assert(distinct_names(t.children[i]));
            lemma_finalized_keeps_names(t.children[i]);
        }
        assert forall|i: int, j: int| 0 <= i < j < f.children.len() implies (
        #[trigger] f.children[i]).name != (#[trigger] f.children[j]).name by {
            assert(t.children[i].name != t.children[j].name);
        }
    }
}

/// What the child named `name` records is what the tree records below
/// that name.
proof fn lemma_size_at_below(t: Tree, name: Seq<char>, path: Steps)
    ensures
        size_at(t, seq![name] + path) == (if child_index(t.children, name) < t.children.len() {
            size_at(t.children[child_index(t.children, name)], path)
        } else {
            None
        }),
{
    let whole = seq![name] + path;
    assert(whole[0] == name);
    assert(whole.drop_first() =~= path);
}

/// In trees that record the same sizes at the same paths, a name is
/// found in both or in neither, and the children found record the same.
proof fn lemma_children_match(a: Tree, b: Tree, name: Seq<char>)
    requires
        same_entries(a, b),
    ensures
        (child_index(a.children, name) < a.children.len()) == (child_index(b.children, name)
            < b.children.len()),
        child_index(a.children, name) < a.children.len() ==> same_entries(
            a.children[child_index(a.children, name)],
            b.children[child_index(b.children, name)],
        ),
        0 <= child_index(a.children, name),
        0 <= child_index(b.children, name),
{
    let pa = child_index(a.children, name);
    let pb = child_index(b.children, name);
    lemma_child_index(a.children, name);
    lemma_child_index(b.children, name);
    let none = Seq::<Seq<char>>::empty();
    lemma_size_at_below(a, name, none);
    lemma_size_at_below(b, name, none);
    assert(size_at(a, seq![name] + none) == size_at(b, seq![name] + none));
    if pa < a.children.len() {
        assert forall|path: Steps|
            size_at(a.children[pa], path) == size_at(b.children[pb], path) by {
            lemma_size_at_below(a, name, path);
            lemma_size_at_below(b, name, path);
            assert(size_at(a, seq![name] + path) == size_at(b, seq![name] + path));
        }
    }
}

/// Trees with distinct sibling names that record the same sizes at the
/// same paths still do so when both are finalized.
pub proof fn lemma_finalized_same_entries(a: Tree, b: Tree)
    requires
        distinct_names(a),
        distinct_names(b),
        same_entries(a, b),
    ensures
        same_entries(finalized(a), finalized(b)),
    decreases a,
{
    let fa = finalized(a);
    let fb = finalized(b);
    let none = Seq::<Seq<char>>::empty();
    lemma_finalized_keeps_names(a);
    lemma_finalized_keeps_names(b);
    assert(size_at(a, none) == size_at(b, none));
    if a.children.len() > 0 {
        lemma_found_where_it_stands(a.children, 0);
        lemma_children_match(a, b, a.children[0].name);
    }
    if b.children.len() > 0 {
        lemma_found_where_it_stands(b.children, 0);
        lemma_children_match(a, b, b.children[0].name);
    }
    assert(fa.size == fb.size) by {
        if a.children.len() > 0 {
            assert forall|i: int| 0 <= i < fa.children.len() implies child_index(
                fb.children,
                (#[trigger] fa.children[i]).name,
            ) < fb.children.len() && fb.children[child_index(fb.children, fa.children[i].name)].size
                == fa.children[i].size by {
                let name = a.children[i].name;
                assert(fa.children[i].name == name);
                lemma_found_where_it_stands(a.children, i);
                lemma_child_index_by_names(fb.children, b.children, name);
                lemma_children_match(a, b, name);
                let pb = child_index(b.children, name);
                assert(distinct_names(a.children[i]));
                assert(distinct_names(b.children[pb]));
                lemma_finalized_same_entries(a.children[i], b.children[pb]);
                assert(size_at(finalized(a.children[i]), none) == size_at(
                    finalized(b.children[pb]),
                    none,
                ));
                assert(fb.children[pb] == finalized(b.children[pb]));
                assert(fa.children[i] == finalized(a.children[i]));
            }
            assert forall|i: int| 0 <= i < fb.children.len() implies child_index(
                fa.children,
                (#[trigger] fb.children[i]).name,
            ) < fa.children.len() && fa.children[child_index(fa.children, fb.children[i].name)].size
                == fb.children[i].size by {
                let name = b.children[i].name;
                assert(fb.children[i].name == name);
                lemma_found_where_it_stands(b.children, i);
                lemma_child_index_by_names(fa.children, a.children, name);
                lemma_children_match(a, b, name);
                let pa = child_index(a.children, name);
                assert(distinct_names(a.children[pa]));
                assert(distinct_names(b.children[i]));
                lemma_finalized_same_entries(a.children[pa], b.children[i]);
                assert(size_at(finalized(a.children[pa]), none) == size_at(
                    finalized(b.children[i]),
                    none,
                ));
                assert(fa.children[pa] == finalized(a.children[pa]));
                assert(fb.children[i] == finalized(b.children[i]));
            }
            lemma_matched_totals(fa.children, fb.children);
            lemma_total_size_is_capped_sum(fa.children);
            lemma_total_size_is_capped_sum(fb.children);
        }
    }
    assert forall|path: Steps| size_at(fa, path) == size_at(fb, path) by {
        if path.len() > 0 {
            let name = path[0];
            let tail = path.drop_first();
            lemma_child_index_by_names(fa.children, a.children, name);
            lemma_child_index_by_names(fb.children, b.children, name);
            lemma_children_match(a, b, name);
            let pa = child_index(a.children, name);
            let pb = child_index(b.children, name);
            if pa < a.children.len() {
                assert(distinct_names(a.children[pa]));
                assert(distinct_names(b.children[pb]));
                lemma_finalized_same_entries(a.children[pa], b.children[pb]);
                assert(size_at(finalized(a.children[pa]), tail) == size_at(
                    finalized(b.children[pb]),
                    tail,
                ));
                assert(fa.children[pa] == finalized(a.children[pa]));
                assert(fb.children[pb] == finalized(b.children[pb]));
            }
        }
    }
}

/// Insertion order independence. Entries that agree (no two of them give
/// different sizes for one place), inserted into a tree with distinct
/// sibling names in one order or in another, give after finalization and
/// sorting trees that record the same sizes at the same paths.
pub proof fn lemma_insertion_order_independence(
    root: Tree,
    first: Seq<Entry>,
    second: Seq<Entry>,
)
    requires
        distinct_names(root),
        first.to_multiset() == second.to_multiset(),
        agreeing(first),
        countable(insert_all(root, first)),
        countable(insert_all(root, second)),
    ensures
        same_entries(
            sorted_desc(finalized(insert_all(root, first))),
            sorted_desc(finalized(insert_all(root, second))),
        ),
{
    let a = insert_all(root, first);
    let b = insert_all(root, second);
    lemma_insert_all_any_order(root, first, second);
    lemma_insert_all_keeps_names_distinct(root, first);
    lemma_insert_all_keeps_names_distinct(root, second);
    lemma_finalized_same_entries(a, b);
    lemma_finalized_keeps_names(a);
    lemma_finalized_keeps_names(b);
    crate::model::lemma_finalized_is_countable(a);
    crate::model::lemma_finalized_is_countable(b);
    assert forall|path: Steps|
        size_at(sorted_desc(finalized(a)), path) == size_at(sorted_desc(finalized(b)), path) by {
        lemma_sorted_size_at(finalized(a), path);
        lemma_sorted_size_at(finalized(b), path);
    }
}


/// No two children of one node have the same size, at any level.
pub open spec fn distinct_sizes(t: Tree) -> bool
    decreases t,
{
    &&& forall|i: int, j: int|
        0 <= i < j < t.children.len() ==> (#[trigger] t.children[i]).size != (
        #[trigger] t.children[j]).size
    &&& forall|i: int| 0 <= i < t.children.len() ==> distinct_sizes(#[trigger] t.children[i])
}

/// The sizes of the children in the order in which sorting puts them.
pub open spec fn ranked_sizes(kids: Seq<Tree>) -> Seq<u64> {
    Seq::new(kids.len(), |k: int| key_size(ranked(size_keys(child_sizes(kids)))[k]))
}

/// Larger or equal, as a relation value.
pub open spec fn at_least() -> spec_fn(u64, u64) -> bool {
    |x: u64, y: u64| x >= y
}

/// A child of the one tree has its like in the other: of the same name,
/// the same size, and recording the same below it.
proof fn lemma_matched_child(a: Tree, b: Tree, i: int)
    requires
        distinct_names(a),
        same_entries(a, b),
        0 <= i < a.children.len(),
    ensures
        ({
            let j = child_index(b.children, a.children[i].name);
            &&& 0 <= j < b.children.len()
            &&& b.children[j].name == a.children[i].name
            &&& b.children[j].size == a.children[i].size
            &&& same_entries(a.children[i], b.children[j])
        }),
{
    let name = a.children[i].name;
    let none = Seq::<Seq<char>>::empty();
    lemma_found_where_it_stands(a.children, i);
    lemma_children_match(a, b, name);
    lemma_child_index(b.children, name);
    let j = child_index(b.children, name);
    assert(size_at(a.children[i], none) == size_at(b.children[j], none));
}

/// What the sizes in sorting order are where no two children have one
/// size: every child's size once, each larger than the next.
proof fn lemma_ranked_sizes(kids: Seq<Tree>)
    requires
        kids.len() <= usize::MAX,
        forall|i: int, j: int|
            0 <= i < j < kids.len() ==> (#[trigger] kids[i]).size != (#[trigger] kids[j]).size,
    ensures
        ranked_sizes(kids).len() == kids.len(),
        ranked_sizes(kids).no_duplicates(),
        sorted_by(ranked_sizes(kids), at_least()),
        forall|i: int| 0 <= i < kids.len() ==> ranked_sizes(kids).contains(#[trigger] kids[i].size),
        forall|k: int|
            0 <= k < kids.len() ==> {
                let at = ranked(size_keys(child_sizes(kids)))[k].1 as int;
                0 <= at < kids.len() && kids[at].size == #[trigger] ranked_sizes(kids)[k]
            },
{
    let sizes = child_sizes(kids);
    let order = ranked(size_keys(sizes));
    let in_order = ranked_sizes(kids);
    lemma_ranked(size_keys(sizes));
    lemma_ranked_positions(sizes);
    assert forall|k: int| 0 <= k < kids.len() implies {
        let at = order[k].1 as int;
        0 <= at < kids.len() && kids[at].size == #[trigger] in_order[k]
    } by {
        assert(order[k].1 < sizes.len());
    }
    assert forall|x: int, y: int| 0 <= x < in_order.len() && 0 <= y < in_order.len() && x
        != y implies in_order[x] != in_order[y] by {
        let p = order[x].1 as int;
        let q = order[y].1 as int;
        assert(order[x].1 != order[y].1);
        if p < q {
            assert(kids[p].size != kids[q].size);
        } else {
            assert(kids[q].size != kids[p].size);
        }
    }
    assert forall|x: int, y: int| 0 <= x < y < in_order.len() implies #[trigger] at_least()(
        in_order[x],
        in_order[y],
    ) by {
        assert(key_le(order[x], order[y]));
    }
    assert forall|i: int| 0 <= i < kids.len() implies in_order.contains(
        #[trigger] kids[i].size,
    ) by {
        lemma_ranked_onto(sizes, i);
        let k = choose|k: int| 0 <= k < sizes.len() && (#[trigger] order[k]).1 == i;
        assert(in_order[k] == kids[i].size);
    }
}

/// Trees with distinct sibling names and sizes that record the same and
/// whose roots agree in name and path are, after sorting, the same tree.
pub proof fn lemma_sorted_trees_equal(a: Tree, b: Tree)
    requires
        distinct_names(a),
        distinct_names(b),
        distinct_sizes(a),
        same_entries(a, b),
        a.name == b.name,
        a.path == b.path,
        paths_nested(a),
        paths_nested(b),
        countable(a),
        countable(b),
    ensures
        sorted_desc(a) == sorted_desc(b),
    decreases a,
{
    broadcast use vstd::multiset::group_multiset_axioms;

    let none = Seq::<Seq<char>>::empty();
    let kids_a = a.children;
    let kids_b = b.children;
    assert(size_at(a, none) == size_at(b, none));
    assert(same_entries(b, a));
    assert forall|i: int, j: int| 0 <= i < j < kids_b.len() implies (#[trigger] kids_b[i]).size != (
    #[trigger] kids_b[j]).size by {
        lemma_matched_child(b, a, i);
        lemma_matched_child(b, a, j);
        let p = child_index(kids_a, kids_b[i].name);
        let q = child_index(kids_a, kids_b[j].name);
        assert(kids_b[i].name != kids_b[j].name);
        if p < q {
            assert(kids_a[p].size != kids_a[q].size);
        } else if q < p {
            assert(kids_a[q].size != kids_a[p].size);
        }
    }
    lemma_ranked_sizes(kids_a);
    lemma_ranked_sizes(kids_b);
    let sizes_a = ranked_sizes(kids_a);
    let sizes_b = ranked_sizes(kids_b);
    sizes_a.lemma_multiset_has_no_duplicates();
    sizes_b.lemma_multiset_has_no_duplicates();
    assert forall|x: u64| sizes_a.to_multiset().count(x) == sizes_b.to_multiset().count(x) by {
        vstd::seq_lib::to_multiset_contains(sizes_a, x);
        vstd::seq_lib::to_multiset_contains(sizes_b, x);
        if sizes_a.contains(x) {
            let k = choose|k: int| 0 <= k < sizes_a.len() && sizes_a[k] == x;
            let at = ranked(size_keys(child_sizes(kids_a)))[k].1 as int;
            assert(kids_a[at].size == sizes_a[k]);
            lemma_matched_child(a, b, at);
            let j = child_index(kids_b, kids_a[at].name);
            assert(sizes_b.contains(kids_b[j].size));
        }
        if sizes_b.contains(x) {
            let k = choose|k: int| 0 <= k < sizes_b.len() && sizes_b[k] == x;
            let at = ranked(size_keys(child_sizes(kids_b)))[k].1 as int;
            assert(kids_b[at].size == sizes_b[k]);
            lemma_matched_child(b, a, at);
            let j = child_index(kids_a, kids_b[at].name);
            assert(sizes_a.contains(kids_a[j].size));
        }
    }
    assert(sizes_a.to_multiset() =~= sizes_b.to_multiset());
    assert(total_ordering(at_least()));
    lemma_sorted_unique(sizes_a, sizes_b, at_least());
    assert(kids_a.len() == kids_b.len());
    let sorted_a = sorted_desc(a);
    let sorted_b = sorted_desc(b);
    assert forall|k: int| 0 <= k < kids_a.len() implies sorted_a.children[k]
        == sorted_b.children[k] by {
        let at_a = ranked(size_keys(child_sizes(kids_a)))[k].1 as int;
        let at_b = ranked(size_keys(child_sizes(kids_b)))[k].1 as int;
        assert(kids_a[at_a].size == sizes_a[k]);
        assert(kids_b[at_b].size == sizes_b[k]);
        lemma_matched_child(a, b, at_a);
        let j = child_index(kids_b, kids_a[at_a].name);
        if j < at_b {
            assert(kids_b[j].size != kids_b[at_b].size);
        } else if at_b < j {
            assert(kids_b[at_b].size != kids_b[j].size);
        }
        assert(j == at_b);
        assert(kids_a[at_a].path == join_path(a.path, kids_a[at_a].name));
        assert(kids_b[at_b].path == join_path(b.path, kids_b[at_b].name));
        assert(distinct_names(kids_a[at_a]) && distinct_names(kids_b[at_b]));
        assert(distinct_sizes(kids_a[at_a]));
        assert(paths_nested(kids_a[at_a]) && paths_nested(kids_b[at_b]));
        assert(countable(kids_a[at_a]) && countable(kids_b[at_b]));
        lemma_sorted_trees_equal(kids_a[at_a], kids_b[at_b]);
        assert(sorted_a.children[k] == sorted_desc(kids_a[at_a]));
        assert(sorted_b.children[k] == sorted_desc(kids_b[at_b]));
    }
    assert(sorted_a.children =~= sorted_b.children);
}

/// Inserting entries one after the other keeps the root's name and path
/// and keeps paths nested.
pub proof fn lemma_insert_all_keeps_paths_nested(t: Tree, entries: Seq<Entry>)
    requires
        paths_nested(t),
    ensures
        paths_nested(insert_all(t, entries)),
        insert_all(t, entries).name == t.name,
        insert_all(t, entries).path == t.path,
    decreases entries.len(),
{
    if entries.len() > 0 {
        lemma_insert_all_keeps_paths_nested(t, entries.drop_last());
        lemma_insert_keeps_paths_nested(
            insert_all(t, entries.drop_last()),
            path_components(entries.last().0),
            0,
            entries.last().1,
        );
    }
}

/// Insertion order independence, list by list. Where, besides, no two
/// entries of one directory end up with the same size, the finished trees
/// are the same tree: the same names, paths and sizes, and every list of
/// children in the same order.
pub proof fn lemma_insertion_order_gives_one_tree(
    root: Tree,
    first: Seq<Entry>,
    second: Seq<Entry>,
)
    requires
        distinct_names(root),
        paths_nested(root),
        first.to_multiset() == second.to_multiset(),
        agreeing(first),
        countable(insert_all(root, first)),
        countable(insert_all(root, second)),
        distinct_sizes(finalized(insert_all(root, first))),
    ensures
        sorted_desc(finalized(insert_all(root, first))) == sorted_desc(
            finalized(insert_all(root, second)),
        ),
{
    let a = insert_all(root, first);
    let b = insert_all(root, second);
    lemma_insert_all_any_order(root, first, second);
    lemma_insert_all_keeps_names_distinct(root, first);
    lemma_insert_all_keeps_names_distinct(root, second);
    lemma_insert_all_keeps_paths_nested(root, first);
    lemma_insert_all_keeps_paths_nested(root, second);
    lemma_finalized_same_entries(a, b);
    lemma_finalized_keeps_names(a);
    lemma_finalized_keeps_names(b);
    lemma_finalized_keeps_paths_nested(a);
    lemma_finalized_keeps_paths_nested(b);
    crate::model::lemma_finalized_is_countable(a);
    crate::model::lemma_finalized_is_countable(b);
    lemma_sorted_trees_equal(finalized(a), finalized(b));
}

} // verus!
