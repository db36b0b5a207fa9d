//! The size-annotated tree of filesystem entries.
//!
//! Paths are kept as `/`-separated text. A tree is grown by inserting
//! relative paths, then finalized once: directory sizes are aggregated
//! bottom-up and every list of children is ordered by size, largest first.

use vstd::prelude::*;
use vstd::string::*;
use vstd::std_specs::iter::IteratorSpec;
use crate::order::{
    key_le, key_size, lemma_ranked, lemma_ranked_positions, rank, ranked, size_keys, Key,
};
use vstd::seq_lib::{commutative_foldl, lemma_fold_left_permutation};

verus! {

/// Mathematical value of a [`Node`]: names and paths as character sequences,
/// children as a sequence of trees.
pub ghost struct Tree {
    pub name: Seq<char>,
    pub path: Seq<char>,
    pub size: u64,
    pub children: Seq<Tree>,
}

/// One filesystem entry. A node without children is a file (a leaf); the size
/// of a directory is meaningful once the tree has been finalized.
#[derive(Debug)]
pub struct Node {
    pub name: String,
    pub path: String,
    pub size: u64,
    pub children: Vec<Node>,
}

impl View for Node {
    type V = Tree;

    open spec fn view(&self) -> Tree {
        tree_of(*self)
    }
}

/// The tree that a node stands for.
pub open spec fn tree_of(node: Node) -> Tree
    decreases node, 1int,
{
    Tree {
        name: node.name@,
        path: node.path@,
        size: node.size,
        children: views_from(node, node.children@.len() as int),
    }
}

/// The trees of the first `upto` children of `node`.
pub open spec fn views_from(node: Node, upto: int) -> Seq<Tree>
    decreases node, 0int, upto,
{
    if 0 < upto <= node.children@.len() {
        views_from(node, upto - 1).push(tree_of(node.children@[upto - 1]))
    } else {
        Seq::empty()
    }
}

/// The views of a list of nodes, element by element.
pub open spec fn views_of(nodes: Seq<Node>) -> Seq<Tree> {
    Seq::new(nodes.len(), |i: int| nodes[i]@)
}

/// A childless tree.
pub open spec fn leaf(name: Seq<char>, path: Seq<char>, size: u64) -> Tree {
    Tree { name, path, size, children: Seq::empty() }
}

/// A path component that insertion passes over: the empty component and the
/// current-directory marker.
pub open spec fn is_skipped(name: Seq<char>) -> bool {
    name.len() == 0 || name == seq!['.']
}

/// The path of the entry `name` inside the directory `base`.
pub open spec fn join_path(base: Seq<char>, name: Seq<char>) -> Seq<char> {
    if base.len() == 0 || base.last() == '/' {
        base + name
    } else {
        base + seq!['/'] + name
    }
}

/// Position of the first tree named `name` in `kids`, or `kids.len()` when
/// there is none.
pub open spec fn child_index(kids: Seq<Tree>, name: Seq<char>) -> int
    decreases kids.len(),
{
    if kids.len() == 0 {
        0
    } else if kids[0].name == name {
        0
    } else {
        1 + child_index(kids.drop_first(), name)
    }
}

/// The tree after inserting the components `comps[at..]` below `t`, the last
/// of them with size `size`. Missing directories are created with size 0;
/// skipped components are passed over; an existing last component has its
/// size overwritten.
pub open spec fn insert_spec(t: Tree, comps: Seq<Seq<char>>, at: int, size: u64) -> Tree
    decreases comps.len() - at,
{
    if at < 0 || at >= comps.len() {
        t
    } else if is_skipped(comps[at]) {
        insert_spec(t, comps, at + 1, size)
    } else {
        let name = comps[at];
        let pos = child_index(t.children, name);
        let kids = if pos < t.children.len() {
            t.children
        } else {
            t.children.push(leaf(name, join_path(t.path, name), 0))
        };
        let grown = if at + 1 == comps.len() {
            Tree { size, ..kids[pos] }
        } else {
            insert_spec(kids[pos], comps, at + 1, size)
        };
        Tree { children: kids.update(pos, grown), ..t }
    }
}

/// Saturating addition of two sizes.
pub open spec fn sat_add(a: u64, b: u64) -> u64 {
    if a + b > u64::MAX {
        u64::MAX
    } else {
        (a + b) as u64
    }
}

/// The sum of the sizes of `kids`, as a natural number.
pub open spec fn exact_total(kids: Seq<Tree>) -> nat
    decreases kids.len(),
{
    if kids.len() == 0 {
        0
    } else {
        exact_total(kids.drop_last()) + kids.last().size as nat
    }
}

/// The saturating sum of the sizes of `kids`, added up from the left.
pub open spec fn total_size(kids: Seq<Tree>) -> u64
    decreases kids.len(),
{
    if kids.len() == 0 {
        0
    } else {
        sat_add(total_size(kids.drop_last()), kids.last().size)
    }
}

/// The tree with every directory's size recomputed bottom-up as the
/// saturating sum of its children's sizes. Leaves keep their size.
pub open spec fn finalized(t: Tree) -> Tree
    decreases t,
{
    if t.children.len() == 0 {
        t
    } else {
        let kids = Seq::new(
            t.children.len(),
            |i: int|
                if 0 <= i < t.children.len() {
                    finalized(t.children[i])
                } else {
                    t
                },
        );
        Tree { size: total_size(kids), children: kids, ..t }
    }
}

/// Every directory's size is the sum of its children's sizes, capped at
/// `u64::MAX`; holds of a whole tree.
pub open spec fn aggregated(t: Tree) -> bool
    decreases t,
{
    t.children.len() > 0 ==> {
        &&& t.size as nat == if exact_total(t.children) <= u64::MAX {
            exact_total(t.children)
        } else {
            u64::MAX as nat
        }
        &&& forall|i: int| 0 <= i < t.children.len() ==> aggregated(#[trigger] t.children[i])
    }
}

/// The saturating sum is the exact sum, capped at `u64::MAX`.
pub proof fn lemma_total_size_is_capped_sum(kids: Seq<Tree>)
    ensures
        total_size(kids) as nat == if exact_total(kids) <= u64::MAX {
            exact_total(kids)
        } else {
            u64::MAX as nat
        },
    decreases kids.len(),
{
    if kids.len() > 0 {
        lemma_total_size_is_capped_sum(kids.drop_last());
    }
}

/// After finalization every directory's size is the sum of its children's
/// sizes (capped at `u64::MAX`), at every level of the tree.
pub proof fn lemma_finalized_is_aggregated(t: Tree)
    ensures
        aggregated(finalized(t)),
    decreases t,
{
    if t.children.len() > 0 {
        let f = finalized(t);
        lemma_total_size_is_capped_sum(f.children);
        assert forall|i: int| 0 <= i < f.children.len() implies aggregated(
            #[trigger] f.children[i],
        ) by {
            lemma_finalized_is_aggregated(t.children[i]);
        }
    }
}

/// The sizes of `kids`, in order.
pub open spec fn child_sizes(kids: Seq<Tree>) -> Seq<u64> {
    Seq::new(kids.len(), |i: int| kids[i].size)
}

/// The tree with every list of children ordered by size, largest first;
/// children of equal size keep the order they had.
pub open spec fn sorted_desc(t: Tree) -> Tree
    decreases t,
{
    let order = ranked(size_keys(child_sizes(t.children)));
    Tree {
        children: Seq::new(
            t.children.len(),
            |k: int|
                {
                    let from = order[k].1 as int;
                    if 0 <= k < t.children.len() && 0 <= from < t.children.len() {
                        sorted_desc(t.children[from])
                    } else {
                        t
                    }
                },
        ),
        ..t
    }
}

/// `child_index` is the least position holding `name`.
pub proof fn lemma_child_index(kids: Seq<Tree>, name: Seq<char>)
    ensures
        0 <= child_index(kids, name) <= kids.len(),
        child_index(kids, name) < kids.len() ==> kids[child_index(kids, name)].name == name,
        forall|i: int| 0 <= i < child_index(kids, name) ==> kids[i].name != name,
    decreases kids.len(),
{
    if kids.len() > 0 && kids[0].name != name {
        let rest = kids.drop_first();
        lemma_child_index(rest, name);
        assert forall|i: int| 0 <= i < child_index(kids, name) implies kids[i].name != name by {
            if i > 0 {
                assert(kids[i] == rest[i - 1]);
            }
        }
    }
}

/// A position that holds `name`, with no earlier one that does, is `child_index`.
pub proof fn lemma_child_index_is(kids: Seq<Tree>, name: Seq<char>, pos: int)
    requires
        0 <= pos <= kids.len(),
        pos < kids.len() ==> kids[pos].name == name,
        forall|i: int| 0 <= i < pos ==> kids[i].name != name,
    ensures
        child_index(kids, name) == pos,
{
    lemma_child_index(kids, name);
}

proof fn lemma_views_from(node: Node, upto: int)
    requires
        0 <= upto <= node.children@.len(),
    ensures
        views_from(node, upto) == views_of(node.children@.subrange(0, upto)),
    decreases upto,
{
    if upto > 0 {
        lemma_views_from(node, upto - 1);
    }
    assert(views_from(node, upto) =~= views_of(node.children@.subrange(0, upto)));
}

impl Clone for Node {
    /// A copy of the whole subtree.
    fn clone(&self) -> (copy: Node)
        ensures
            copy@ == self@,
        decreases self@,
    {
        let mut children: Vec<Node> = Vec::new();
        let mut i: usize = 0;
        proof {
            self.lemma_view_children();
        }
        while i < self.children.len()
            invariant
                i <= self.children@.len(),
                self@.children == views_of(self.children@),
                views_of(children@) == self@.children.subrange(0, i as int),
            decreases self.children@.len() - i,
        {
            proof {
                assert(self@.children[i as int] == self.children@[i as int]@);
            }
            let ghost earlier = views_of(children@);
            let child = self.children[i].clone();
            children.push(child);
            i += 1;
            proof {
                assert(views_of(children@) =~= earlier.push(child@));
                assert(views_of(children@) =~= self@.children.subrange(0, i as int));
            }
        }
        let copy = Node { name: self.name.clone(), path: self.path.clone(), size: self.size, children };
        proof {
            copy.lemma_view_children();
            assert(self@.children.subrange(0, i as int) =~= self@.children);
        }
        copy
    }
}

impl Node {
    /// A childless node with the given name, path and size.
    pub fn new(name: String, path: String, size: u64) -> (node: Node)
        ensures
            node@ == leaf(name@, path@, size),
            node.children@.len() == 0,
    {
        let node = Node { name, path, size, children: Vec::new() };
        assert(node@.children =~= Seq::empty());
        node
    }

    /// The views of the children are the children of the view.
    pub proof fn lemma_view_children(&self)
        ensures
            self@.children == views_of(self.children@),
            self@.name == self.name@,
            self@.path == self.path@,
            self@.size == self.size,
    {
        lemma_views_from(*self, self.children@.len() as int);
    }

    fn find_child(&self, name: &String) -> (pos: usize)
        ensures
            pos as int == child_index(self@.children, name@),
            pos <= self.children.len(),
    {
        let mut i: usize = 0;
        proof {
            self.lemma_view_children();
        }
        while i < self.children.len()
            invariant
                i <= self.children.len(),
                self@.children == views_of(self.children@),
                forall|k: int| 0 <= k < i ==> self@.children[k].name != name@,
            decreases self.children.len() - i,
        {
            if self.children[i].name == *name {
                proof {
                    self.children[i as int].lemma_view_children();
                    lemma_child_index_is(self@.children, name@, i as int);
                }
                return i;
            }
            proof {
                self.children[i as int].lemma_view_children();
            }
            i += 1;
        }
        proof {
            lemma_child_index_is(self@.children, name@, i as int);
        }
        i
    }

    /// Recomputes the size of every directory below and including this node
    /// as the saturating sum of its children's sizes, and returns this
    /// node's size.
    pub fn compute_total_size(&mut self) -> (total: u64)
        ensures
            final(self)@ == finalized(old(self)@),
            total == final(self)@.size,
        decreases old(self)@,
    {
        proof {
            self.lemma_view_children();
        }
        if self.children.len() == 0 {
            return self.size;
        }
        let ghost before = self.children@;
        let mut total: u64 = 0;
        let mut i: usize = 0;
        while i < self.children.len()
            invariant
                i <= self.children@.len() == before.len(),
                before == old(self).children@,
                self.name == old(self).name,
                self.path == old(self).path,
                forall|k: int| 0 <= k < i ==> (#[trigger] self.children@[k])@ == finalized(before[k]@),
                forall|k: int| i <= k < before.len() ==> self.children@[k] == before[k],
                total == total_size(views_of(self.children@.subrange(0, i as int))),
            decreases self.children@.len() - i,
        {
            let ghost nodes = self.children@;
            proof {
                old(self).lemma_view_children();
                assert(old(self)@.children[i as int] == before[i as int]@);
            }
            let child = &mut self.children[i];
            let size = child.compute_total_size();
            total = total.saturating_add(size);
            i += 1;
            proof {
                assert(self.children@ == nodes.update(i - 1, self.children@[i - 1]));
                let done = views_of(self.children@.subrange(0, i as int));
                assert(done.drop_last() =~= views_of(nodes.subrange(0, i - 1)));
                assert(done.last() == self.children@[i - 1]@);
            }
        }
        self.size = total;
        proof {
            self.lemma_view_children();
            old(self).lemma_view_children();
            assert(self.children@.subrange(0, i as int) =~= self.children@);
            assert(self@.children =~= finalized(old(self)@).children);
        }
        total
    }

    /// Orders every list of children below this node by size, largest
    /// first. Children of equal size keep their order.
    pub fn sort_children_by_size_desc(&mut self)
        ensures
            final(self)@ == sorted_desc(old(self)@),
        decreases old(self)@,
    {
        let ghost before = self.children@;
        let ghost sizes = child_sizes(self@.children);
        let count = self.children.len();
        proof {
            self.lemma_view_children();
        }
        let mut keys: Vec<Key> = Vec::new();
        let mut i: usize = 0;
        while i < count
            invariant
                i <= count == before.len(),
                self.children@ == before,
                sizes == child_sizes(views_of(before)),
                keys@ == size_keys(sizes.subrange(0, i as int)),
            decreases count - i,
        {
            proof {
                before[i as int].lemma_view_children();
            }
            keys.push((u64::MAX - self.children[i].size, i));
            i += 1;
            proof {
                assert(keys@ =~= size_keys(sizes.subrange(0, i as int)));
            }
        }
        proof {
            assert(sizes.subrange(0, count as int) =~= sizes);
            lemma_ranked(keys@);
            lemma_ranked_positions(sizes);
        }
        rank(&mut keys);
        let mut slots: Vec<Option<Node>> = Vec::new();
        let mut nodes: Vec<Node> = Vec::new();
        core::mem::swap(&mut nodes, &mut self.children);
        loop
            invariant
                slots@.len() + nodes@.len() == count == before.len(),
                nodes@ == before.subrange(0, nodes@.len() as int),
                forall|j: int| 0 <= j < slots@.len() ==> slots@[j] == Some(before[count - 1 - j]),
                self.children@.len() == 0,
                self.name == old(self).name,
                self.path == old(self).path,
                self.size == old(self).size,
            ensures
                slots@.len() == count,
            decreases nodes@.len(),
        {
            match nodes.pop() {
                Some(node) => {
                    slots.push(Some(node));
                },
                None => {
                    break ;
                },
            }
        }
        let mut k: usize = 0;
        while k < count
            invariant
                k <= count == before.len() == slots@.len() == keys@.len(),
                count == sizes.len(),
                before == old(self).children@,
                sizes == child_sizes(old(self)@.children),
                keys@ == ranked(size_keys(sizes)),
                forall|a: int| 0 <= a < count ==> (#[trigger] keys@[a]).1 < count,
                forall|a: int, b: int|
                    0 <= a < count && 0 <= b < count && a != b ==> (#[trigger] keys@[a]).1 != (
                    #[trigger] keys@[b]).1,
                forall|a: int|
                    k <= a < count ==> #[trigger] slots@[count - 1 - keys@[a].1] == Some(
                        before[keys@[a].1 as int],
                    ),
                self.children@.len() == k,
                forall|a: int|
                    0 <= a < k ==> (#[trigger] self.children@[a])@ == sorted_desc(
                        before[keys@[a].1 as int]@,
                    ),
                self.name == old(self).name,
                self.path == old(self).path,
                self.size == old(self).size,
            decreases count - k,
        {
            let from = keys[k].1;
            let ghost held = slots@;
            let slot = &mut slots[count - 1 - from];
            let taken = slot.take();
            proof {
                old(self).lemma_view_children();
                assert(old(self)@.children[from as int] == before[from as int]@);
                assert(held[count - 1 - keys@[k as int].1] == Some(before[from as int]));
                assert forall|a: int| k < a < count implies #[trigger] slots@[count - 1
                    - keys@[a].1] == Some(before[keys@[a].1 as int]) by {
                    assert(keys@[a].1 != keys@[k as int].1);
                    assert(held[count - 1 - keys@[a].1] == Some(before[keys@[a].1 as int]));
                }
            }
            match taken {
                Some(mut node) => {
                    node.sort_children_by_size_desc();
                    self.children.push(node);
                },
                None => {},
            }
            k += 1;
        }
        proof {
            self.lemma_view_children();
            old(self).lemma_view_children();
            let goal = sorted_desc(old(self)@);
            assert forall|a: int| 0 <= a < count implies self@.children[a] == goal.children[a] by {
                assert(keys@[a].1 < count);
                assert(old(self)@.children[keys@[a].1 as int] == before[keys@[a].1 as int]@);
            }
            assert(self@.children =~= goal.children);
        }
    }

    /// Inserts the entry at `relative_path` (components separated by `/`)
    /// with size `leaf_size`, creating the directories on the way.
    pub fn insert_relative(&mut self, relative_path: &str, leaf_size: u64)
        ensures
            final(self)@ == insert_spec(old(self)@, path_components(relative_path@), 0, leaf_size),
    {
        let components = split_components(relative_path);
        self.insert_components(&components, 0, leaf_size);
    }

    /// Inserts the components from position `index` on below this node.
    pub fn insert_components(&mut self, components: &Vec<String>, index: usize, leaf_size: u64)
        ensures
            final(self)@ == insert_spec(old(self)@, texts_of(components@), index as int, leaf_size),
        decreases components.len() - index,
    {
        if index >= components.len() {
            return;
        }
        let name = &components[index];
        if is_skipped_name(name) {
            self.insert_components(components, index + 1, leaf_size);
            return;
        }
        let pos = self.find_child(name);
        proof {
            self.lemma_view_children();
        }
        if pos == self.children.len() {
            let path = child_path(&self.path, name);
            self.children.push(Node::new(name.clone(), path, 0));
        }
        proof {
            self.lemma_view_children();
            assert(views_of(self.children@) =~= if pos < old(self).children@.len() {
                old(self)@.children
            } else {
                old(self)@.children.push(leaf(name@, join_path(old(self)@.path, name@), 0))
            });
        }
        let ghost kids = self@.children;
        let ghost nodes = self.children@;
        let is_leaf = index + 1 == components.len();
        let child = &mut self.children[pos];
        if is_leaf {
            child.size = leaf_size;
        } else {
            child.insert_components(components, index + 1, leaf_size);
        }
        proof {
            self.lemma_view_children();
            let grown = self.children@[pos as int];
            assert(self.children@ == nodes.update(pos as int, grown));
            grown.lemma_view_children();
            nodes[pos as int].lemma_view_children();
            assert(kids[pos as int] == nodes[pos as int]@);
            if is_leaf {
                assert(grown@ == (Tree { size: leaf_size, ..kids[pos as int] }));
            } else {
                assert(grown@ == insert_spec(kids[pos as int], texts_of(components@), index + 1, leaf_size));
            }
            assert(views_of(self.children@) =~= kids.update(pos as int, grown@));
            assert(texts_of(components@)[index as int] == name@);
        }
    }
}

/// The character sequences of a list of strings.
pub open spec fn texts_of(parts: Seq<String>) -> Seq<Seq<char>> {
    Seq::new(parts.len(), |i: int| parts[i]@)
}

/// The components of a `/`-separated path, without the empty ones and the
/// current-directory marker. `"a//b/./c"` has the components `a`, `b`, `c`.
pub open spec fn path_components(path: Seq<char>) -> Seq<Seq<char>> {
    split_at_slashes(path).filter(|part: Seq<char>| !is_skipped(part))
}

/// The pieces of `path` between its `/` characters, empty ones included.
pub open spec fn split_at_slashes(path: Seq<char>) -> Seq<Seq<char>>
    decreases path.len(),
{
    if path.len() == 0 {
        seq![Seq::empty()]
    } else {
        let init = split_at_slashes(path.drop_last());
        if path.last() == '/' {
            init.push(Seq::empty())
        } else {
            init.drop_last().push(init.last().push(path.last()))
        }
    }
}

proof fn lemma_filter_push(parts: Seq<Seq<char>>, part: Seq<char>)
    ensures
        parts.push(part).filter(|p: Seq<char>| !is_skipped(p)) == if is_skipped(part) {
            parts.filter(|p: Seq<char>| !is_skipped(p))
        } else {
            parts.filter(|p: Seq<char>| !is_skipped(p)).push(part)
        },
{
    reveal(Seq::filter);
    assert(parts.push(part).drop_last() =~= parts);
}

/// Splits a `/`-separated path into its components.
pub fn split_components(path: &str) -> (components: Vec<String>)
    ensures
        texts_of(components@) == path_components(path@),
{
    broadcast use vstd::string::group_string_axioms;

    let mut done: Vec<String> = Vec::new();
    let mut current = String::new();
    let mut rest = path.chars();
    let ghost mut seen: Seq<char> = Seq::empty();
    let ghost keep = |p: Seq<char>| !is_skipped(p);
    proof {
        assert(split_at_slashes(seen).drop_last() =~= Seq::<Seq<char>>::empty());
        assert(texts_of(done@) =~= split_at_slashes(seen).drop_last().filter(keep));
    }
    loop
        invariant
            rest.obeys_prophetic_iter_laws(),
            seen + rest.remaining() == path@,
            split_at_slashes(seen).len() > 0,
            current@ == split_at_slashes(seen).last(),
            texts_of(done@) == split_at_slashes(seen).drop_last().filter(keep),
            keep == |p: Seq<char>| !is_skipped(p),
            rest.decrease() is Some,
        ensures
            seen == path@,
        decreases rest.decrease()->0,
    {
        let ghost before = seen;
        match rest.next() {
            None => {
                proof {
                    assert(seen =~= path@);
                }
                break ;
            },
            Some(ch) => {
                proof {
                    seen = seen.push(ch);
                    assert(seen.drop_last() =~= before);
                    assert(seen.last() == ch);
                }
                if ch == '/' {
                    proof {
                        lemma_filter_push(split_at_slashes(before).drop_last(), current@);
                        assert(split_at_slashes(seen).drop_last() =~= split_at_slashes(
                            before,
                        ).drop_last().push(current@));
                    }
                    if !is_skipped_name(&current) {
                        done.push(current);
                        proof {
                            assert(texts_of(done@) =~= split_at_slashes(seen).drop_last().filter(
                                keep,
                            ));
                        }
                    }
                    current = String::new();
                } else {
                    current.push(ch);
                    proof {
                        assert(split_at_slashes(seen).drop_last() =~= split_at_slashes(
                            before,
                        ).drop_last());
                    }
                }
            },
        }
    }
    proof {
        let parts = split_at_slashes(path@);
        lemma_filter_push(parts.drop_last(), current@);
        assert(parts.drop_last().push(current@) =~= parts);
    }
    if !is_skipped_name(&current) {
        done.push(current);
        proof {
            assert(texts_of(done@) =~= path_components(path@));
        }
    }
    done
}

fn is_skipped_name(name: &String) -> (skipped: bool)
    ensures
        skipped == is_skipped(name@),
{
    let text = name.as_str();
    if text.is_empty() {
        return true;
    }
    if text.unicode_len() != 1 {
        return false;
    }
    let dot = text.get_char(0) == '.';
    proof {
        if dot {
            assert(name@ =~= seq!['.']);
        }
    }
    dot
}

/// The path of the entry `name` inside the directory `base`.
pub fn child_path(base: &String, name: &String) -> (path: String)
    ensures
        path@ == join_path(base@, name@),
{
    let mut path = base.clone();
    let len = base.as_str().unicode_len();
    if len > 0 && base.as_str().get_char(len - 1) != '/' {
        proof {
            reveal_strlit("/");
        }
        path.append("/");
        assert(path@ =~= base@ + seq!['/']);
    }
    path.append(name.as_str());
    path
}


/// No list of children, at any level, is longer than a vector can be.
/// Holds of the tree of every [`Node`].
pub open spec fn countable(t: Tree) -> bool
    decreases t,
{
    &&& t.children.len() <= usize::MAX
    &&& forall|i: int| 0 <= i < t.children.len() ==> countable(#[trigger] t.children[i])
}

impl Node {
    /// The tree of a node is countable.
    pub proof fn lemma_countable(&self)
        ensures
            countable(self@),
        decreases self,
    {
        broadcast use vstd::std_specs::vec::group_vec_axioms;

        self.lemma_view_children();
        assert(self.children@.len() == self.children.len());
        assert forall|i: int| 0 <= i < self@.children.len() implies countable(
            #[trigger] self@.children[i],
        ) by {
            self.children@[i].lemma_countable();
        }
    }
}

/// Adding a key's size to a sum.
pub open spec fn add_key_size() -> spec_fn(int, Key) -> int {
    |sum: int, key: Key| sum + key_size(key)
}

proof fn lemma_keys_total(kids: Seq<Tree>, keys: Seq<Key>)
    requires
        keys.len() == kids.len(),
        forall|i: int| 0 <= i < keys.len() ==> key_size(#[trigger] keys[i]) == kids[i].size,
    ensures
        keys.fold_left(0, add_key_size()) == exact_total(kids),
    decreases keys.len(),
{
    if keys.len() > 0 {
        lemma_keys_total(kids.drop_last(), keys.drop_last());
    }
}

/// Sorting keeps every child's size and rearranges the children: their
/// sizes add up to what they added up to before.
pub proof fn lemma_sorted_total(t: Tree)
    requires
        t.children.len() <= usize::MAX,
    ensures
        sorted_desc(t).size == t.size,
        sorted_desc(t).name == t.name,
        sorted_desc(t).path == t.path,
        sorted_desc(t).children.len() == t.children.len(),
        exact_total(sorted_desc(t).children) == exact_total(t.children),
{
    let kids = t.children;
    let sizes = child_sizes(kids);
    let keys = size_keys(sizes);
    let order = ranked(keys);
    let sorted = sorted_desc(t).children;
    lemma_ranked(keys);
    lemma_ranked_positions(sizes);
    assert forall|k: int| 0 <= k < order.len() implies key_size(#[trigger] order[k])
        == sorted[k].size by {
        let from = order[k].1 as int;
        assert(sorted[k] == sorted_desc(kids[from]));
    }
    lemma_keys_total(sorted, order);
    lemma_keys_total(kids, keys);
    assert(commutative_foldl(add_key_size()));
    lemma_fold_left_permutation(order, keys, add_key_size(), 0int);
}

/// Sorting puts the children in descending order of size, children of
/// equal size in the order they had; nothing else changes.
pub proof fn lemma_sorted_order(t: Tree, j: int, k: int)
    requires
        t.children.len() <= usize::MAX,
        0 <= j < k < t.children.len(),
    ensures
        sorted_desc(t).children[j].size >= sorted_desc(t).children[k].size,
        ({
            let order = ranked(size_keys(child_sizes(t.children)));
            &&& order[j].1 < t.children.len()
            &&& order[k].1 < t.children.len()
            &&& order[j].1 != order[k].1
            &&& sorted_desc(t).children[j] == sorted_desc(t.children[order[j].1 as int])
            &&& sorted_desc(t).children[k] == sorted_desc(t.children[order[k].1 as int])
            &&& sorted_desc(t).children[j].size == sorted_desc(t).children[k].size ==> order[j].1
                < order[k].1
        }),
{
    let sizes = child_sizes(t.children);
    let order = ranked(size_keys(sizes));
    lemma_ranked(size_keys(sizes));
    lemma_ranked_positions(sizes);
    assert(key_le(order[j], order[k]));
    assert(order[j].1 < sizes.len() && order[k].1 < sizes.len());
    assert(order[j].1 != order[k].1);
    let sorted = sorted_desc(t).children;
    assert(sorted[j] == sorted_desc(t.children[order[j].1 as int]));
    assert(sorted[k] == sorted_desc(t.children[order[k].1 as int]));
    assert(order[j].0 == u64::MAX - sizes[order[j].1 as int]);
    assert(order[k].0 == u64::MAX - sizes[order[k].1 as int]);
}

/// Sorting keeps the aggregation: where every directory's size was the
/// sum of its children's sizes, it still is.
pub proof fn lemma_sorted_is_aggregated(t: Tree)
    requires
        countable(t),
        aggregated(t),
    ensures
        aggregated(sorted_desc(t)),
        countable(sorted_desc(t)),
    decreases t,
{
    let sorted = sorted_desc(t);
    let order = ranked(size_keys(child_sizes(t.children)));
    lemma_sorted_total(t);
    lemma_ranked(size_keys(child_sizes(t.children)));
    lemma_ranked_positions(child_sizes(t.children));
    assert forall|k: int| 0 <= k < sorted.children.len() implies aggregated(
        #[trigger] sorted.children[k],
    ) && countable(sorted.children[k]) by {
        let from = order[k].1 as int;
        assert(0 <= from < t.children.len());
        assert(countable(t.children[from]));
        assert(aggregated(t.children[from]));
        lemma_sorted_is_aggregated(t.children[from]);
    }
}

/// Finalization keeps the shape of the tree.
pub proof fn lemma_finalized_is_countable(t: Tree)
    requires
        countable(t),
    ensures
        countable(finalized(t)),
    decreases t,
{
    if t.children.len() > 0 {
        let f = finalized(t);
        assert forall|i: int| 0 <= i < f.children.len() implies countable(
            #[trigger] f.children[i],
        ) by {
            assert(countable(t.children[i]));
            lemma_finalized_is_countable(t.children[i]);
        }
    }
}

/// In a tree that is finalized and sorted, the size of every directory is
/// the sum of the sizes of its children, capped at `u64::MAX`.
pub proof fn lemma_finished_tree_is_aggregated(t: Tree)
    requires
        countable(t),
    ensures
        aggregated(sorted_desc(finalized(t))),
{
    lemma_finalized_is_aggregated(t);
    lemma_finalized_is_countable(t);
    lemma_sorted_is_aggregated(finalized(t));
}

} // verus!
