//! What every tree grown by insertion keeps: the path of an entry is the
//! path of its directory followed by its own name.

use vstd::prelude::*;
use crate::model::{
    child_index, finalized, insert_spec, is_skipped, join_path, leaf, lemma_child_index,
    sorted_desc, Tree,
};
use crate::order::{lemma_ranked, ranked, size_keys};
use crate::text::starts_with;

verus! {

/// The path of every entry below `t` is the path of the directory it is
/// in, joined with its name.
pub open spec fn paths_nested(t: Tree) -> bool
    decreases t,
{
    forall|i: int|
        0 <= i < t.children.len() ==> {
            &&& (#[trigger] t.children[i]).path == join_path(t.path, t.children[i].name)
            &&& paths_nested(t.children[i])
        }
}

/// A joined path begins with the path of the directory.
pub proof fn lemma_join_starts_with(base: Seq<char>, name: Seq<char>)
    ensures
        starts_with(join_path(base, name), base),
{
    assert(join_path(base, name).subrange(0, base.len() as int) =~= base);
}

/// Insertion keeps paths nested.
pub proof fn lemma_insert_keeps_paths_nested(t: Tree, steps: Seq<Seq<char>>, at: int, size: u64)
    requires
        paths_nested(t),
    ensures
        paths_nested(insert_spec(t, steps, at, size)),
        insert_spec(t, steps, at, size).path == t.path,
        insert_spec(t, steps, at, size).name == t.name,
    decreases steps.len() - at,
{
    if 0 <= at < steps.len() {
        if is_skipped(steps[at]) {
            lemma_insert_keeps_paths_nested(t, steps, at + 1, size);
        } else {
            let name = steps[at];
            let pos = child_index(t.children, name);
            let kids = if pos < t.children.len() {
                t.children
            } else {
                t.children.push(leaf(name, join_path(t.path, name), 0))
            };
            lemma_child_index(t.children, name);
            let after = insert_spec(t, steps, at, size);
            assert(paths_nested(kids[pos])) by {
                if pos < t.children.len() {
                    assert(paths_nested(t.children[pos]));
                }
            }
            assert(kids[pos].path == join_path(t.path, kids[pos].name)) by {
                if pos < t.children.len() {
                    assert(t.children[pos].path == join_path(t.path, t.children[pos].name));
                }
            }
            if at + 1 < steps.len() {
                lemma_insert_keeps_paths_nested(kids[pos], steps, at + 1, size);
            } else {
                assert(after.children[pos].children == kids[pos].children);
            }
            assert forall|i: int| 0 <= i < after.children.len() implies {
                &&& (#[trigger] after.children[i]).path == join_path(
                    after.path,
                    after.children[i].name,
                )
                &&& paths_nested(after.children[i])
            } by {
                if i != pos {
                    assert(after.children[i] == t.children[i]);
                }
            }
        }
    }
}

/// Finalization keeps paths nested.
pub proof fn lemma_finalized_keeps_paths_nested(t: Tree)
    requires
        paths_nested(t),
    ensures
        paths_nested(finalized(t)),
        finalized(t).path == t.path,
        finalized(t).name == t.name,
    decreases t,
{
    if t.children.len() > 0 {
        let f = finalized(t);
        assert forall|i: int| 0 <= i < f.children.len() implies {
            &&& (#[trigger] f.children[i]).path == join_path(f.path, f.children[i].name)
            &&& paths_nested(f.children[i])
        } by {
            assert(paths_nested(t.children[i]));
            lemma_finalized_keeps_paths_nested(t.children[i]);
        }
    }
}

/// Sorting keeps paths nested.
pub proof fn lemma_sorted_keeps_paths_nested(t: Tree)
    requires
        paths_nested(t),
    ensures
        paths_nested(sorted_desc(t)),
        sorted_desc(t).path == t.path,
        sorted_desc(t).name == t.name,
    decreases t,
{
    let sorted = sorted_desc(t);
    let order = ranked(size_keys(crate::model::child_sizes(t.children)));
    lemma_ranked(size_keys(crate::model::child_sizes(t.children)));
    assert forall|k: int| 0 <= k < sorted.children.len() implies {
        &&& (#[trigger] sorted.children[k]).path == join_path(sorted.path, sorted.children[k].name)
        &&& paths_nested(sorted.children[k])
    } by {
        let from = order[k].1 as int;
        if 0 <= from < t.children.len() {
            assert(paths_nested(t.children[from]));
            lemma_sorted_keeps_paths_nested(t.children[from]);
        } else {
            assert(sorted.children[k] == t);
        }
    }
}

} // verus!
