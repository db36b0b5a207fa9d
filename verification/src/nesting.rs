//! How the cells of a layout nest: every cell but the first has its parent
//! before it in the list, lies within the parent's rectangle less the
//! margin, and lies apart from the other children of that parent; and the
//! children of one cell together cover no more than that rectangle.

use vstd::prelude::*;
use crate::geometry::Rect;
use crate::treemap::{
    child_rects, covered_area, layout, layout_items, layout_node, lemma_child_rects,
    lemma_layout_items, lemma_layout_node, visible_order, Placed, PADDING,
};
use crate::model::Tree;

verus! {

/// The last position at or before `from` that holds a cell one level above
/// `depth`, or -1 where there is none.
pub open spec fn scan_up(cells: Seq<Placed>, from: int, depth: nat) -> int
    decreases from + 1,
{
    if from < 0 {
        -1
    } else if cells[from].depth + 1 == depth {
        from
    } else {
        scan_up(cells, from - 1, depth)
    }
}

/// The position of the parent of cell `i` in a pre-order list: the nearest
/// earlier cell one level up; -1 where there is none.
pub open spec fn parent_index(cells: Seq<Placed>, i: int) -> int {
    scan_up(cells, i - 1, cells[i].depth)
}

/// `child` is the cell of the child of rank `k` of the node of `parent`:
/// its node is that child, its rectangle the one that the layout of the
/// parent's rectangle gives to that child.
#[verifier::opaque]
pub open spec fn is_child_rank(parent: Placed, child: Placed, k: int) -> bool {
    let inner = parent.rect.shrink(PADDING as int);
    let order = visible_order(parent.node.children);
    &&& 0 <= k < order.len()
    &&& order[k].1 < parent.node.children.len()
    &&& child.node == parent.node.children[order[k].1 as int]
    &&& child.rect == child_rects(parent.node, inner)[k]
    &&& child.depth == parent.depth + 1
}

/// `child` is the cell of a child of the node of `parent`, and lies within
/// the parent's rectangle less the margin.
pub open spec fn child_of(parent: Placed, child: Placed) -> bool {
    &&& parent.rect.shrink(PADDING as int).encloses(child.rect)
    &&& exists|k: int| #[trigger] is_child_rank(parent, child, k)
}

/// Every cell deeper than `lowest` has its parent before it, and two such
/// cells with one parent lie apart.
pub open spec fn nested(cells: Seq<Placed>, lowest: nat) -> bool {
    &&& forall|i: int|
        0 <= i < cells.len() && (#[trigger] cells[i]).depth > lowest ==> {
            &&& 0 <= parent_index(cells, i) < i
            &&& child_of(cells[parent_index(cells, i)], cells[i])
        }
    &&& forall|i: int, j: int|
        0 <= i < j < cells.len() && (#[trigger] cells[i]).depth > lowest && (
        #[trigger] cells[j]).depth > lowest && parent_index(cells, i) == parent_index(cells, j)
            ==> cells[i].rect.apart_from(cells[j].rect)
}

/// The cells at depth `depth` are cells of children of `parent` of rank
/// `from` or more, in the order of their ranks.
pub open spec fn ranked_tops(cells: Seq<Placed>, parent: Placed, from: int, depth: nat) -> bool {
    &&& forall|i: int|
        0 <= i < cells.len() && (#[trigger] cells[i]).depth == depth ==> exists|k: int|
            from <= k && #[trigger] is_child_rank(parent, cells[i], k)
    &&& forall|i: int, j: int|
        0 <= i < j < cells.len() && (#[trigger] cells[i]).depth == depth && (
        #[trigger] cells[j]).depth == depth ==> exists|a: int, b: int|
            from <= a < b && #[trigger] is_child_rank(parent, cells[i], a) && #[trigger] is_child_rank(
                parent,
                cells[j],
                b,
            )
}

/// Scanning a list for a parent does not look at what follows the list.
pub proof fn lemma_scan_front(front: Seq<Placed>, back: Seq<Placed>, from: int, depth: nat)
    requires
        from < front.len(),
    ensures
        scan_up(front + back, from, depth) == scan_up(front, from, depth),
    decreases from + 1,
{
    if from >= 0 {
        assert((front + back)[from] == front[from]);
        if front[from].depth + 1 != depth {
            lemma_scan_front(front, back, from - 1, depth);
        }
    }
}

/// A parent found in the back part of a list is found there in the whole
/// list.
pub proof fn lemma_scan_back(front: Seq<Placed>, back: Seq<Placed>, from: int, depth: nat)
    requires
        from < back.len(),
        scan_up(back, from, depth) >= 0,
    ensures
        scan_up(front + back, front.len() + from, depth) == front.len() + scan_up(back, from, depth),
    decreases from + 1,
{
    if from >= 0 {
        assert((front + back)[front.len() + from] == back[from]);
        if back[from].depth + 1 != depth {
            lemma_scan_back(front, back, from - 1, depth);
        }
    }
}

/// Where no cell of the back part is one level above `depth`, the scan
/// goes on in the front part.
pub proof fn lemma_scan_through(front: Seq<Placed>, back: Seq<Placed>, from: int, depth: nat)
    requires
        -1 <= from < back.len(),
        forall|i: int| 0 <= i < back.len() ==> (#[trigger] back[i]).depth + 1 != depth,
    ensures
        scan_up(front + back, front.len() + from, depth) == scan_up(front, front.len() - 1, depth),
    decreases from + 1,
{
    if from >= 0 {
        assert((front + back)[front.len() + from] == back[from]);
        lemma_scan_through(front, back, from - 1, depth);
    } else {
        lemma_scan_front(front, back, front.len() - 1, depth);
    }
}

/// Neither side is negative, and both are within `i32`.
pub open spec fn bounded(rect: Rect) -> bool {
    0 <= rect.w <= i32::MAX && 0 <= rect.h <= i32::MAX
}

proof fn lemma_inner_area(rect: Rect)
    requires
        bounded(rect),
    ensures
        0 <= rect.shrink(PADDING as int).area() <= u64::MAX,
        bounded(rect.shrink(PADDING as int)),
{
    let inner = rect.shrink(PADDING as int);
    assert(0 <= inner.w * inner.h <= 0x7fff_ffff * 0x7fff_ffff) by (nonlinear_arith)
        requires
            0 <= inner.w <= 0x7fff_ffff,
            0 <= inner.h <= 0x7fff_ffff,
    ;
}

/// Two nested lists, one after the other, are nested.
proof fn lemma_nested_concat(first: Seq<Placed>, rest: Seq<Placed>, below: nat)
    requires
        nested(first, below),
        nested(rest, below),
    ensures
        nested(first + rest, below),
{
    let items = first + rest;
    let split = first.len() as int;
    assert forall|i: int| 0 <= i < items.len() && (#[trigger] items[i]).depth > below implies {
        &&& 0 <= parent_index(items, i) < i
        &&& child_of(items[parent_index(items, i)], items[i])
    } by {
        if i < split {
            assert(items[i] == first[i]);
            lemma_scan_front(first, rest, i - 1, items[i].depth);
            let p = parent_index(first, i);
            assert(items[p] == first[p]);
        } else {
            let l = i - split;
            assert(items[i] == rest[l]);
            let p = parent_index(rest, l);
            lemma_scan_back(first, rest, l - 1, items[i].depth);
            assert(items[split + p] == rest[p]);
        }
    }
    assert forall|i: int, j: int|
        0 <= i < j < items.len() && (#[trigger] items[i]).depth > below && (
        #[trigger] items[j]).depth > below && parent_index(items, i) == parent_index(
            items,
            j,
        ) implies items[i].rect.apart_from(items[j].rect) by {
        if j < split {
            assert(items[i] == first[i] && items[j] == first[j]);
            lemma_scan_front(first, rest, i - 1, items[i].depth);
            lemma_scan_front(first, rest, j - 1, items[j].depth);
        } else if i >= split {
            assert(items[i] == rest[i - split] && items[j] == rest[j - split]);
            assert(0 <= parent_index(rest, i - split));
            assert(0 <= parent_index(rest, j - split));
            lemma_scan_back(first, rest, i - split - 1, items[i].depth);
            lemma_scan_back(first, rest, j - split - 1, items[j].depth);
        } else {
            assert(items[i] == first[i] && items[j] == rest[j - split]);
            lemma_scan_front(first, rest, i - 1, items[i].depth);
            assert(0 <= parent_index(first, i) < i);
            assert(0 <= parent_index(rest, j - split));
            lemma_scan_back(first, rest, j - split - 1, items[j].depth);
        }
    }
}

/// The cells of the child of rank `from`, followed by cells whose tops are
/// of later ranks, have tops of rank `from` or more, in order.
proof fn lemma_tops_concat(
    first: Seq<Placed>,
    rest: Seq<Placed>,
    parent: Placed,
    from: int,
    below: nat,
)
    requires
        first.len() > 0 ==> is_child_rank(parent, first[0], from) && first[0].depth == below,
        forall|i: int| 1 <= i < first.len() ==> (#[trigger] first[i]).depth > below,
        ranked_tops(rest, parent, from + 1, below),
    ensures
        ranked_tops(first + rest, parent, from, below),
{
    let items = first + rest;
    let split = first.len() as int;
    assert forall|i: int| 0 <= i < items.len() && (#[trigger] items[i]).depth
        == below implies exists|k: int| from <= k && #[trigger] is_child_rank(parent, items[i], k) by {
        if i < split {
            assert(items[i] == first[i]);
            assert(i == 0);
            assert(is_child_rank(parent, items[i], from));
        } else {
            assert(items[i] == rest[i - split]);
            let k = choose|k: int|
                from + 1 <= k && #[trigger] is_child_rank(parent, rest[i - split], k);
            assert(is_child_rank(parent, items[i], k));
        }
    }
    assert forall|i: int, j: int|
        0 <= i < j < items.len() && (#[trigger] items[i]).depth == below && (
        #[trigger] items[j]).depth == below implies exists|a: int, b: int|
        from <= a < b && #[trigger] is_child_rank(parent, items[i], a) && #[trigger] is_child_rank(
            parent,
            items[j],
            b,
        ) by {
        if i < split {
            assert(items[i] == first[i]);
            assert(i == 0);
            if j < split {
                assert(items[j] == first[j]);
            }
            assert(items[j] == rest[j - split]);
            let b = choose|k: int|
                from + 1 <= k && #[trigger] is_child_rank(parent, rest[j - split], k);
            assert(is_child_rank(parent, items[i], from));
            assert(is_child_rank(parent, items[j], b));
        } else {
            assert(items[i] == rest[i - split] && items[j] == rest[j - split]);
            let (a, b) = choose|a: int, b: int|
                from + 1 <= a < b && #[trigger] is_child_rank(parent, rest[i - split], a)
                    && #[trigger] is_child_rank(parent, rest[j - split], b);
            assert(is_child_rank(parent, items[i], a));
            assert(is_child_rank(parent, items[j], b));
        }
    }
}

/// Where the parent of a cell stands when a cell is put in front of the
/// cells of its children: at the front for a child, where it stood among
/// the children for a cell further down.
proof fn lemma_parent_under(top: Placed, items: Seq<Placed>, at: int)
    requires
        0 <= at < items.len(),
        forall|i: int| 0 <= i < items.len() ==> (#[trigger] items[i]).depth >= top.depth + 1,
        items[at].depth > top.depth + 1 ==> 0 <= parent_index(items, at),
    ensures
        (seq![top] + items)[at + 1] == items[at],
        parent_index(seq![top] + items, at + 1) == (if items[at].depth == top.depth + 1 {
            0
        } else {
            1 + parent_index(items, at)
        }),
{
    let here = seq![top];
    let out = here + items;
    assert(out[at + 1] == items[at]);
    if items[at].depth == top.depth + 1 {
        lemma_scan_through(here, items, at - 1, (top.depth + 1) as nat);
    } else {
        lemma_scan_back(here, items, at - 1, items[at].depth);
    }
}

/// A cell followed by the nested cells of its children is nested.
proof fn lemma_nested_under(top: Placed, items: Seq<Placed>)
    requires
        nested(items, top.depth + 1),
        ranked_tops(items, top, 0, top.depth + 1),
        forall|i: int| 0 <= i < items.len() ==> (#[trigger] items[i]).depth >= top.depth + 1,
        forall|cell: Placed, k: int| #[trigger]
            is_child_rank(top, cell, k) ==> top.rect.shrink(PADDING as int).encloses(cell.rect),
        forall|one: Placed, other: Placed, a: int, b: int|
            a < b && #[trigger] is_child_rank(top, one, a) && #[trigger] is_child_rank(
                top,
                other,
                b,
            ) ==> one.rect.apart_from(other.rect),
    ensures
        nested(seq![top] + items, top.depth),
{
    let out = seq![top] + items;
    let below = top.depth + 1;
    assert(out[0] == top);
    assert forall|i: int| 0 <= i < out.len() && (#[trigger] out[i]).depth > top.depth implies {
        &&& 0 <= parent_index(out, i) < i
        &&& child_of(out[parent_index(out, i)], out[i])
    } by {
        let l = i - 1;
        lemma_parent_under(top, items, l);
        if items[l].depth == below {
            let k = choose|k: int| 0 <= k && #[trigger] is_child_rank(top, items[l], k);
            assert(is_child_rank(out[0], out[i], k));
        } else {
            let p = parent_index(items, l);
            assert(out[1 + p] == items[p]);
        }
    }
    assert forall|i: int, j: int|
        0 <= i < j < out.len() && (#[trigger] out[i]).depth > top.depth && (
        #[trigger] out[j]).depth > top.depth && parent_index(out, i) == parent_index(
            out,
            j,
        ) implies out[i].rect.apart_from(out[j].rect) by {
        let a = i - 1;
        let b = j - 1;
        lemma_parent_under(top, items, a);
        lemma_parent_under(top, items, b);
        if items[a].depth == below && items[b].depth == below {
            let (x, y) = choose|x: int, y: int|
                0 <= x < y && #[trigger] is_child_rank(top, items[a], x) && #[trigger] is_child_rank(
                    top,
                    items[b],
                    y,
                );
            assert(items[a].rect.apart_from(items[b].rect));
        }
    }
}

proof fn lemma_items_nested(
    t: Tree,
    rect: Rect,
    from: int,
    depth: nat,
    max_depth: nat,
    budget: nat,
)
    requires
        bounded(rect),
        0 <= from,
    ensures
        ({
            let items = layout_items(
                t,
                visible_order(t.children),
                child_rects(t, rect.shrink(PADDING as int)),
                from,
                depth + 1,
                max_depth,
                budget,
            );
            &&& nested(items, depth + 1)
            &&& ranked_tops(items, Placed { node: t, rect, depth }, from, depth + 1)
        }),
    decreases t, 0int, visible_order(t.children).len() - from,
{
    let inner = rect.shrink(PADDING as int);
    let order = visible_order(t.children);
    let rects = child_rects(t, inner);
    let parent = Placed { node: t, rect, depth };
    let below = depth + 1;
    let items = layout_items(t, order, rects, from, below, max_depth, budget);
    reveal(is_child_rank);
    if !(from >= order.len() || budget == 0) {
        lemma_inner_area(rect);
        lemma_child_rects(t, rect);
        let at = order[from].1 as int;
        let first = if 0 <= at < t.children.len() {
            layout_node(t.children[at], rects[from], below, max_depth, budget)
        } else {
            Seq::empty()
        };
        let left: nat = if first.len() >= budget {
            0
        } else {
            (budget - first.len()) as nat
        };
        let rest = layout_items(t, order, rects, from + 1, below, max_depth, left);
        assert(items == first + rest);
        assert(inner.encloses(rects[from]));
        if 0 <= at < t.children.len() {
            lemma_node_nested(t.children[at], rects[from], below, max_depth, budget);
            lemma_layout_node(t.children[at], rects[from], below, max_depth, budget);
            if first.len() > 0 {
                assert(is_child_rank(parent, first[0], from));
            }
        }
        lemma_items_nested(t, rect, from + 1, depth, max_depth, left);
        lemma_nested_concat(first, rest, below);
        lemma_tops_concat(first, rest, parent, from, below);
    }
}

proof fn lemma_node_nested(t: Tree, rect: Rect, depth: nat, max_depth: nat, budget: nat)
    requires
        bounded(rect),
    ensures
        nested(layout_node(t, rect, depth, max_depth, budget), depth),
    decreases t, 1int, 0int,
{
    let out = layout_node(t, rect, depth, max_depth, budget);
    lemma_layout_node(t, rect, depth, max_depth, budget);
    reveal(is_child_rank);
    if out.len() > 1 {
        let inner = rect.shrink(PADDING as int);
        let order = visible_order(t.children);
        let rects = child_rects(t, inner);
        let parent = Placed { node: t, rect, depth };
        let below = depth + 1;
        let items = layout_items(t, order, rects, 0, below, max_depth, (budget - 1) as nat);
        assert(out == seq![parent] + items);
        lemma_inner_area(rect);
        lemma_child_rects(t, rect);
        lemma_items_nested(t, rect, 0, depth, max_depth, (budget - 1) as nat);
        lemma_layout_items(t, order, rects, 0, below, max_depth, (budget - 1) as nat);
        assert forall|cell: Placed, k: int| #[trigger]
            is_child_rank(parent, cell, k) implies inner.encloses(cell.rect) by {
            assert(inner.encloses(rects[k]));
        }
        assert forall|one: Placed, other: Placed, a: int, b: int|
            a < b && #[trigger] is_child_rank(parent, one, a) && #[trigger] is_child_rank(
                parent,
                other,
                b,
            ) implies one.rect.apart_from(other.rect) by {
            assert(rects[a].apart_from(rects[b]));
        }
        lemma_nested_under(parent, items);
    }
}

/// The cells of a layout nest. The first cell is the root in the bounds
/// given, at depth 0. Every other cell comes after its parent, is the cell
/// of one of the parent's children, one level deeper, and lies within the
/// parent's rectangle less the margin. Two cells with one parent share no
/// interior point.
pub proof fn lemma_layout_nests(root: Tree, bounds: Rect, max_depth: nat, max_nodes: nat)
    requires
        bounds.w <= i32::MAX,
        bounds.h <= i32::MAX,
    ensures
        ({
            let cells = layout(root, bounds, max_depth, max_nodes);
            &&& cells.len() <= max_nodes
            &&& cells.len() > 0 ==> cells[0] == (Placed { node: root, rect: bounds, depth: 0 })
            &&& forall|i: int| 1 <= i < cells.len() ==> (#[trigger] cells[i]).depth > 0
            &&& forall|i: int|
                1 <= i < cells.len() ==> {
                    &&& 0 <= parent_index(cells, i) < i
                    &&& child_of(cells[parent_index(cells, i)], #[trigger] cells[i])
                }
            &&& forall|i: int, j: int|
                1 <= i < j < cells.len() && parent_index(cells, i) == parent_index(cells, j) ==> (
                #[trigger] cells[i]).rect.apart_from((#[trigger] cells[j]).rect)
        }),
{
    lemma_layout_node(root, bounds, 0, max_depth, max_nodes);
    if bounds.w > 0 && bounds.h > 0 {
        lemma_node_nested(root, bounds, 0, max_depth, max_nodes);
    }
}


/// The sum of the areas of the cells before `upto` whose parent is the
/// cell at `parent`.
pub open spec fn children_area(cells: Seq<Placed>, parent: int, upto: int) -> int
    decreases upto,
{
    if upto <= 0 {
        0
    } else {
        children_area(cells, parent, upto - 1) + if parent_index(cells, upto - 1) == parent {
            cells[upto - 1].rect.area()
        } else {
            0
        }
    }
}

/// The sum of the areas of the cells before `upto` that lie at `depth`.
pub open spec fn level_area(cells: Seq<Placed>, depth: nat, upto: int) -> int
    decreases upto,
{
    if upto <= 0 {
        0
    } else {
        level_area(cells, depth, upto - 1) + if cells[upto - 1].depth == depth {
            cells[upto - 1].rect.area()
        } else {
            0
        }
    }
}

/// The children of every cell cover no more than the cell's rectangle less
/// the margin.
pub open spec fn covered(cells: Seq<Placed>) -> bool {
    forall|p: int|
        0 <= p < cells.len() ==> children_area(cells, p, cells.len() as int) <= (
        #[trigger] cells[p]).rect.shrink(PADDING as int).area()
}

/// No cell lies above `lowest`.
pub open spec fn none_above(cells: Seq<Placed>, lowest: nat) -> bool {
    forall|i: int| 0 <= i < cells.len() ==> (#[trigger] cells[i]).depth >= lowest
}

proof fn lemma_scan_bound(cells: Seq<Placed>, from: int, depth: nat)
    requires
        -1 <= from < cells.len(),
    ensures
        -1 <= scan_up(cells, from, depth) <= from,
    decreases from + 1,
{
    if from >= 0 && cells[from].depth + 1 != depth {
        lemma_scan_bound(cells, from - 1, depth);
    }
}

proof fn lemma_scan_none(cells: Seq<Placed>, from: int, depth: nat)
    requires
        from < cells.len(),
        forall|i: int| 0 <= i < cells.len() ==> (#[trigger] cells[i]).depth + 1 != depth,
    ensures
        scan_up(cells, from, depth) == -1,
    decreases from + 1,
{
    if from >= 0 {
        lemma_scan_none(cells, from - 1, depth);
    }
}

/// Where the parent of a cell of the back part stands in the whole list:
/// nowhere for a cell at the lowest depth, else where it stood in the back
/// part.
proof fn lemma_parent_in_back(first: Seq<Placed>, rest: Seq<Placed>, below: nat, at: int)
    requires
        0 <= at < rest.len(),
        none_above(first, below),
        none_above(rest, below),
        nested(rest, below),
    ensures
        (first + rest)[first.len() + at] == rest[at],
        parent_index(first + rest, first.len() + at) == (if rest[at].depth == below {
            -1
        } else {
            first.len() + parent_index(rest, at)
        }),
        rest[at].depth == below ==> parent_index(rest, at) == -1,
{
    assert((first + rest)[first.len() + at] == rest[at]);
    if rest[at].depth == below {
        lemma_scan_through(first, rest, at - 1, below);
        lemma_scan_none(first, first.len() - 1, below);
        lemma_scan_none(rest, at - 1, below);
    } else {
        assert(0 <= parent_index(rest, at));
        lemma_scan_back(first, rest, at - 1, rest[at].depth);
    }
}

proof fn lemma_parent_in_front(first: Seq<Placed>, rest: Seq<Placed>, at: int)
    requires
        0 <= at < first.len(),
    ensures
        (first + rest)[at] == first[at],
        parent_index(first + rest, at) == parent_index(first, at),
        -1 <= parent_index(first, at) < at,
{
    assert((first + rest)[at] == first[at]);
    lemma_scan_front(first, rest, at - 1, first[at].depth);
    lemma_scan_bound(first, at - 1, first[at].depth);
}

proof fn lemma_children_area_front(first: Seq<Placed>, rest: Seq<Placed>, p: int, upto: int)
    requires
        0 <= upto <= first.len(),
    ensures
        children_area(first + rest, p, upto) == children_area(first, p, upto),
        p >= first.len() ==> children_area(first + rest, p, upto) == 0,
    decreases upto,
{
    if upto > 0 {
        lemma_children_area_front(first, rest, p, upto - 1);
        lemma_parent_in_front(first, rest, upto - 1);
    }
}

/// The children of a cell of the front part all lie in the front part.
proof fn lemma_children_area_of_front(
    first: Seq<Placed>,
    rest: Seq<Placed>,
    below: nat,
    p: int,
    upto: int,
)
    requires
        0 <= p < first.len(),
        0 <= upto <= rest.len(),
        none_above(first, below),
        none_above(rest, below),
        nested(rest, below),
    ensures
        children_area(first + rest, p, first.len() + upto) == children_area(
            first,
            p,
            first.len() as int,
        ),
    decreases upto,
{
    if upto > 0 {
        lemma_children_area_of_front(first, rest, below, p, upto - 1);
        lemma_parent_in_back(first, rest, below, upto - 1);
    } else {
        lemma_children_area_front(first, rest, p, first.len() as int);
    }
}

/// The children of a cell of the back part are its children there.
proof fn lemma_children_area_of_back(
    first: Seq<Placed>,
    rest: Seq<Placed>,
    below: nat,
    q: int,
    upto: int,
)
    requires
        0 <= q < rest.len(),
        0 <= upto <= rest.len(),
        none_above(first, below),
        none_above(rest, below),
        nested(rest, below),
    ensures
        children_area(first + rest, first.len() + q, first.len() + upto) == children_area(
            rest,
            q,
            upto,
        ),
    decreases upto,
{
    if upto > 0 {
        lemma_children_area_of_back(first, rest, below, q, upto - 1);
        lemma_parent_in_back(first, rest, below, upto - 1);
    } else {
        lemma_children_area_front(first, rest, first.len() + q, first.len() as int);
    }
}

/// Two lists in which children cover no more than their parents allow,
/// one after the other, make such a list.
proof fn lemma_covered_concat(first: Seq<Placed>, rest: Seq<Placed>, below: nat)
    requires
        covered(first),
        covered(rest),
        none_above(first, below),
        none_above(rest, below),
        nested(rest, below),
    ensures
        covered(first + rest),
{
    let all = first + rest;
    assert forall|p: int| 0 <= p < all.len() implies children_area(all, p, all.len() as int) <= (
    #[trigger] all[p]).rect.shrink(PADDING as int).area() by {
        if p < first.len() {
            lemma_children_area_of_front(first, rest, below, p, rest.len() as int);
            assert(all[p] == first[p]);
        } else {
            lemma_children_area_of_back(first, rest, below, p - first.len(), rest.len() as int);
            assert(all[p] == rest[p - first.len()]);
        }
    }
}

proof fn lemma_level_area_concat(first: Seq<Placed>, rest: Seq<Placed>, depth: nat, upto: int)
    requires
        0 <= upto <= rest.len(),
    ensures
        level_area(first + rest, depth, first.len() + upto) == level_area(
            first,
            depth,
            first.len() as int,
        ) + level_area(rest, depth, upto),
    decreases upto,
{
    if upto > 0 {
        lemma_level_area_concat(first, rest, depth, upto - 1);
        assert((first + rest)[first.len() + upto - 1] == rest[upto - 1]);
    } else {
        lemma_level_area_front(first, rest, depth, first.len() as int);
    }
}

proof fn lemma_level_area_front(first: Seq<Placed>, rest: Seq<Placed>, depth: nat, upto: int)
    requires
        0 <= upto <= first.len(),
    ensures
        level_area(first + rest, depth, upto) == level_area(first, depth, upto),
    decreases upto,
{
    if upto > 0 {
        lemma_level_area_front(first, rest, depth, upto - 1);
        assert((first + rest)[upto - 1] == first[upto - 1]);
    }
}

/// In a list that holds cells at `depth` at its front at most, the area at
/// that depth is that of the first cell.
proof fn lemma_level_area_of_first(cells: Seq<Placed>, depth: nat, upto: int)
    requires
        0 <= upto <= cells.len(),
        forall|i: int| 1 <= i < cells.len() ==> (#[trigger] cells[i]).depth > depth,
    ensures
        level_area(cells, depth, upto) == (if upto > 0 && cells[0].depth == depth {
            cells[0].rect.area()
        } else {
            0
        }),
    decreases upto,
{
    if upto > 0 {
        lemma_level_area_of_first(cells, depth, upto - 1);
    }
}

/// A cell in front of the cells of its children: its children are the
/// cells at the depth below it, and the children of the others are theirs.
proof fn lemma_children_area_under(top: Placed, items: Seq<Placed>, q: int, upto: int)
    requires
        0 <= upto <= items.len(),
        none_above(items, top.depth + 1),
        nested(items, top.depth + 1),
    ensures
        children_area(seq![top] + items, 0, 1 + upto) == level_area(
            items,
            top.depth + 1,
            upto,
        ),
        0 <= q ==> children_area(seq![top] + items, 1 + q, 1 + upto) == children_area(
            items,
            q,
            upto,
        ),
    decreases upto,
{
    let out = seq![top] + items;
    if upto > 0 {
        lemma_children_area_under(top, items, q, upto - 1);
        let at = upto - 1;
        if items[at].depth > top.depth + 1 {
            assert(0 <= parent_index(items, at));
        } else {
            lemma_scan_none(items, at - 1, (top.depth + 1) as nat);
        }
        lemma_parent_under(top, items, at);
    } else {
        assert(out[0] == top);
        assert(parent_index(out, 0) == -1);
        assert(children_area(out, 0, 0) == 0);
        assert(children_area(out, 1 + q, 0) == 0);
    }
}

proof fn lemma_area_sign(cell: Placed)
    ensures
        0 <= cell.rect.area(),
{
    let w = crate::geometry::at_least_zero(cell.rect.w);
    let h = crate::geometry::at_least_zero(cell.rect.h);
    assert(0 <= w * h) by (nonlinear_arith)
        requires
            0 <= w,
            0 <= h,
    ;
}

proof fn lemma_items_covered(
    t: Tree,
    rect: Rect,
    from: int,
    depth: nat,
    max_depth: nat,
    budget: nat,
)
    requires
        bounded(rect),
        0 <= from,
    ensures
        ({
            let rects = child_rects(t, rect.shrink(PADDING as int));
            let order = visible_order(t.children);
            let items = layout_items(t, order, rects, from, depth + 1, max_depth, budget);
            &&& covered(items)
            &&& from <= order.len() ==> level_area(items, depth + 1, items.len() as int)
                + covered_area(rects, from) <= covered_area(rects, order.len() as int)
            &&& 0 <= level_area(items, depth + 1, items.len() as int)
        }),
    decreases t, 0int, visible_order(t.children).len() - from,
{
    let inner = rect.shrink(PADDING as int);
    let order = visible_order(t.children);
    let rects = child_rects(t, inner);
    let below = depth + 1;
    let items = layout_items(t, order, rects, from, below, max_depth, budget);
    if !(from >= order.len() || budget == 0) {
        lemma_inner_area(rect);
        lemma_child_rects(t, rect);
        let at = order[from].1 as int;
        let first = if 0 <= at < t.children.len() {
            layout_node(t.children[at], rects[from], below, max_depth, budget)
        } else {
            Seq::empty()
        };
        let left: nat = if first.len() >= budget {
            0
        } else {
            (budget - first.len()) as nat
        };
        let rest = layout_items(t, order, rects, from + 1, below, max_depth, left);
        assert(items == first + rest);
        assert(inner.encloses(rects[from]));
        if 0 <= at < t.children.len() {
            lemma_node_covered(t.children[at], rects[from], below, max_depth, budget);
            lemma_layout_node(t.children[at], rects[from], below, max_depth, budget);
        }
        lemma_items_covered(t, rect, from + 1, depth, max_depth, left);
        lemma_items_nested(t, rect, from + 1, depth, max_depth, left);
        lemma_layout_items(t, order, rects, from + 1, below, max_depth, left);
        assert(none_above(first, below)) by {
            assert forall|i: int| 0 <= i < first.len() implies (#[trigger] first[i]).depth
                >= below by {
                if i > 0 {
                    assert(first[i].depth > below);
                }
            }
        }
        lemma_covered_concat(first, rest, below);
        lemma_level_area_concat(first, rest, below, rest.len() as int);
        lemma_level_area_of_first(first, below, first.len() as int);
        if first.len() > 0 {
            lemma_area_sign(first[0]);
        }
        assert(covered_area(rects, from + 1) == covered_area(rects, from) + rects[from].area());
        lemma_area_sign(Placed { node: t, rect: rects[from], depth });
    } else {
        assert(items =~= Seq::<Placed>::empty());
        if from < order.len() {
            lemma_covered_grows(rects, from, order.len() as int);
        }
    }
}

proof fn lemma_covered_grows(rects: Seq<Rect>, from: int, upto: int)
    requires
        0 <= from <= upto,
    ensures
        covered_area(rects, from) <= covered_area(rects, upto),
    decreases upto - from,
{
    if from < upto {
        lemma_covered_grows(rects, from, upto - 1);
        lemma_area_sign(Placed { node: arbitrary(), rect: rects[upto - 1], depth: 0 });
    }
}

proof fn lemma_node_covered(t: Tree, rect: Rect, depth: nat, max_depth: nat, budget: nat)
    requires
        bounded(rect),
    ensures
        covered(layout_node(t, rect, depth, max_depth, budget)),
    decreases t, 1int, 0int,
{
    let out = layout_node(t, rect, depth, max_depth, budget);
    lemma_layout_node(t, rect, depth, max_depth, budget);
    let top = Placed { node: t, rect, depth };
    let inner = rect.shrink(PADDING as int);
    if out.len() > 1 {
        let order = visible_order(t.children);
        let rects = child_rects(t, inner);
        let below = depth + 1;
        let items = layout_items(t, order, rects, 0, below, max_depth, (budget - 1) as nat);
        assert(out == seq![top] + items);
        lemma_inner_area(rect);
        lemma_child_rects(t, rect);
        lemma_items_covered(t, rect, 0, depth, max_depth, (budget - 1) as nat);
        lemma_items_nested(t, rect, 0, depth, max_depth, (budget - 1) as nat);
        lemma_layout_items(t, order, rects, 0, below, max_depth, (budget - 1) as nat);
        assert(none_above(items, below));
        assert(covered_area(rects, 0) == 0);
        assert forall|p: int| 0 <= p < out.len() implies children_area(out, p, out.len() as int)
            <= (#[trigger] out[p]).rect.shrink(PADDING as int).area() by {
            lemma_children_area_under(top, items, p - 1, items.len() as int);
            if p > 0 {
                assert(out[p] == items[p - 1]);
            } else {
                assert(out[0] == top);
            }
        }
    } else if out.len() == 1 {
        assert(out[0] == top);
        assert(parent_index(out, 0) == -1);
        assert(children_area(out, 0, 0) == 0);
        lemma_inner_area(rect);
    }
}

/// The children of one cell share what the cell has to give. For every
/// cell of a layout, the cells whose parent it is have rectangles whose
/// areas add up to no more than the area of the cell's rectangle less the
/// margin, also where the budget left some children without a cell.
pub proof fn lemma_layout_covers(root: Tree, bounds: Rect, max_depth: nat, max_nodes: nat)
    requires
        bounds.w <= i32::MAX,
        bounds.h <= i32::MAX,
    ensures
        covered(layout(root, bounds, max_depth, max_nodes)),
{
    lemma_layout_node(root, bounds, 0, max_depth, max_nodes);
    if bounds.w > 0 && bounds.h > 0 {
        lemma_node_covered(root, bounds, 0, max_depth, max_nodes);
    }
}

} // verus!
