//! Squarified treemap layout of a size-annotated tree.
//!
//! Every visited node gets a cell: a rectangle and a depth. The cells come
//! in pre-order, the root first. The children of a node share the node's
//! rectangle, less a margin of one pixel, in proportion to their sizes.

use vstd::prelude::*;
use crate::geometry::{lemma_share, share, LayoutRect, Rect};
use crate::model::{child_sizes, exact_total, Node, Tree};
use crate::order::{
    is_positive, key_size, lemma_positive_keys, lemma_positive_push, lemma_ranked,
    positive_keys, rank, ranked, size_keys, Key,
};
use vstd::seq_lib::{commutative_foldl, lemma_fold_left_permutation};
use crate::squarify::{
    lemma_packed, packed, range_sum, rects_of, squarify_items, well_packed,
};

verus! {

/// The margin between a cell and the cells of its children: one pixel.
pub const PADDING: i32 = 1000;

/// A rectangle gets a cell only if both its sides are longer than this: a
/// fifth of a pixel.
pub const MIN_EXTENT: i32 = 200;

/// A node with the rectangle and the depth it was given.
#[derive(Debug, Clone, Copy)]
pub struct TreemapCell<'a> {
    pub node: &'a Node,
    pub rect: LayoutRect,
    pub depth: usize,
}

/// Mathematical value of a [`TreemapCell`].
pub ghost struct Placed {
    pub node: Tree,
    pub rect: Rect,
    pub depth: nat,
}

impl<'a> View for TreemapCell<'a> {
    type V = Placed;

    open spec fn view(&self) -> Placed {
        Placed { node: self.node@, rect: self.rect@, depth: self.depth as nat }
    }
}

/// The mathematical values of a list of cells.
pub open spec fn placed_of(cells: Seq<TreemapCell<'_>>) -> Seq<Placed> {
    Seq::new(cells.len(), |i: int| cells[i]@)
}

/// The children that take part in the layout, those with a size above
/// zero, largest first and equal sizes in their order among the children:
/// each as the key of its size and its position.
pub open spec fn visible_order(kids: Seq<Tree>) -> Seq<Key> {
    ranked(positive_keys(child_sizes(kids)))
}

/// The sum of the sizes of the first `upto` keys.
pub open spec fn order_total(order: Seq<Key>, upto: int) -> int
    decreases upto,
{
    if upto <= 0 {
        0
    } else {
        order_total(order, upto - 1) + key_size(order[upto - 1])
    }
}

/// The area that each child is to get: its share of `area` by size.
pub open spec fn target_areas(order: Seq<Key>, area: int) -> Seq<u64> {
    Seq::new(
        order.len(),
        |k: int| share(area, key_size(order[k]) as int, order_total(order, order.len() as int)) as u64,
    )
}

/// The rectangles of the children of `t` that take part, in the order of
/// `visible_order`, packed into `inner`.
pub open spec fn child_rects(t: Tree, inner: Rect) -> Seq<Rect> {
    packed(target_areas(visible_order(t.children), inner.area()), inner)
}

/// The cells of the subtree `t` laid out in `rect` at `depth`, while at
/// most `budget` more cells may be emitted.
pub open spec fn layout_node(t: Tree, rect: Rect, depth: nat, max_depth: nat, budget: nat) -> Seq<Placed>
    decreases t, 1int, 0int,
{
    if budget == 0 || rect.w <= MIN_EXTENT || rect.h <= MIN_EXTENT {
        Seq::empty()
    } else {
        let here = seq![Placed { node: t, rect, depth }];
        let inner = rect.shrink(PADDING as int);
        if depth >= max_depth || t.children.len() == 0 || inner.w <= MIN_EXTENT || inner.h
            <= MIN_EXTENT {
            here
        } else {
            here + layout_items(
                t,
                visible_order(t.children),
                child_rects(t, inner),
                0,
                depth + 1,
                max_depth,
                (budget - 1) as nat,
            )
        }
    }
}

/// The cells of the children `order[from..]` of `t`, each laid out in its
/// rectangle, one after the other, until the budget is used up.
pub open spec fn layout_items(
    t: Tree,
    order: Seq<Key>,
    rects: Seq<Rect>,
    from: int,
    depth: nat,
    max_depth: nat,
    budget: nat,
) -> Seq<Placed>
    decreases t, 0int, order.len() - from,
{
    if from < 0 || from >= order.len() || budget == 0 {
        Seq::empty()
    } else {
        let at = order[from].1 as int;
        let first = if 0 <= at < t.children.len() {
            layout_node(t.children[at], rects[from], depth, max_depth, budget)
        } else {
            Seq::empty()
        };
        let left: nat = if first.len() >= budget {
            0
        } else {
            (budget - first.len()) as nat
        };
        first + layout_items(t, order, rects, from + 1, depth, max_depth, left)
    }
}

/// The cells of the tree `root` laid out in `bounds`: the result of
/// [`squarified_treemap`].
pub open spec fn layout(root: Tree, bounds: Rect, max_depth: nat, max_nodes: nat) -> Seq<Placed> {
    layout_node(root, bounds, 0, max_depth, max_nodes)
}

/// How many more cells may be emitted when `used` of `max_nodes` are.
pub open spec fn budget_left(max_nodes: usize, used: nat) -> nat {
    if used >= max_nodes {
        0
    } else {
        (max_nodes - used) as nat
    }
}


/// Every key of the order names a child, stands for that child's size, and
/// that size is above zero.
pub proof fn lemma_visible_order(kids: Seq<Tree>)
    requires
        kids.len() <= usize::MAX,
    ensures
        visible_order(kids).len() <= kids.len(),
        forall|k: int|
            0 <= k < visible_order(kids).len() ==> {
                let key = #[trigger] visible_order(kids)[k];
                &&& key.1 < kids.len()
                &&& key_size(key) == kids[key.1 as int].size
                &&& kids[key.1 as int].size > 0
            },
{
    let sizes = child_sizes(kids);
    let kept = positive_keys(sizes);
    lemma_positive_keys(sizes);
    lemma_ranked(kept);
    assert forall|k: int| 0 <= k < visible_order(kids).len() implies {
        let key = #[trigger] visible_order(kids)[k];
        &&& key.1 < kids.len()
        &&& key_size(key) == kids[key.1 as int].size
        &&& kids[key.1 as int].size > 0
    } by {
        let key = visible_order(kids)[k];
        assert(kept.contains(key));
        let i = choose|i: int| 0 <= i < kept.len() && kept[i] == key;
        assert(kept[i].1 < sizes.len());
    }
}

/// The sizes of the first keys add up to no more than their number times
/// the largest size.
pub proof fn lemma_order_total_bound(order: Seq<Key>, upto: int)
    requires
        0 <= upto <= order.len(),
    ensures
        0 <= order_total(order, upto) <= upto * u64::MAX,
    decreases upto,
{
    if upto > 0 {
        lemma_order_total_bound(order, upto - 1);
        assert((upto - 1) * u64::MAX + u64::MAX == upto * u64::MAX) by (nonlinear_arith);
    }
}

/// The first target areas, times the total size, come to no more than the
/// area times the sizes they are for.
proof fn lemma_target_areas_part(order: Seq<Key>, area: int, upto: int)
    requires
        0 <= upto <= order.len(),
        0 <= area <= u64::MAX,
    ensures
        0 <= range_sum(target_areas(order, area), 0, upto),
        range_sum(target_areas(order, area), 0, upto) * order_total(order, order.len() as int)
            <= area * order_total(order, upto),
        forall|k: int|
            0 <= k < order.len() ==> (#[trigger] target_areas(order, area)[k]) == share(
                area,
                key_size(order[k]) as int,
                order_total(order, order.len() as int),
            ),
    decreases upto,
{
    let total = order_total(order, order.len() as int);
    let areas = target_areas(order, area);
    assert forall|k: int| 0 <= k < order.len() implies (#[trigger] areas[k]) == share(
        area,
        key_size(order[k]) as int,
        total,
    ) by {
        lemma_order_total_part(order, k + 1);
        lemma_order_total_bound(order, k);
        lemma_share(area, key_size(order[k]) as int, total);
    }
    if upto > 0 {
        lemma_target_areas_part(order, area, upto - 1);
        lemma_order_total_part(order, upto);
        lemma_order_total_bound(order, upto - 1);
        let size = key_size(order[upto - 1]) as int;
        lemma_share(area, size, total);
        let before = range_sum(areas, 0, upto - 1);
        let here = areas[upto - 1] as int;
        let part = order_total(order, upto - 1);
        assert((before + here) * total <= area * (part + size)) by (nonlinear_arith)
            requires
                before * total <= area * part,
                here * total <= area * size,
        ;
    } else {
        assert(0 * total == 0);
        assert(area * 0 == 0);
    }
}

/// The sizes of the first keys are part of the sizes of all.
proof fn lemma_order_total_part(order: Seq<Key>, upto: int)
    requires
        0 <= upto <= order.len(),
    ensures
        0 <= order_total(order, upto) <= order_total(order, order.len() as int),
    decreases order.len() - upto,
{
    lemma_order_total_bound(order, upto);
    if upto < order.len() {
        lemma_order_total_part(order, upto + 1);
    }
}

/// The target areas add up to no more than the area that is shared out.
pub proof fn lemma_target_areas_fit(order: Seq<Key>, area: int)
    requires
        0 <= area <= u64::MAX,
    ensures
        0 <= range_sum(target_areas(order, area), 0, order.len() as int) <= area,
{
    let total = order_total(order, order.len() as int);
    let sum = range_sum(target_areas(order, area), 0, order.len() as int);
    lemma_target_areas_part(order, area, order.len() as int);
    lemma_order_total_bound(order, order.len() as int);
    if total > 0 {
        assert(sum <= area) by (nonlinear_arith)
            requires
                sum * total <= area * total,
                total > 0,
        ;
    } else {
        lemma_zero_areas(order, area, order.len() as int);
    }
}

proof fn lemma_zero_areas(order: Seq<Key>, area: int, upto: int)
    requires
        0 <= upto <= order.len(),
        order_total(order, order.len() as int) <= 0,
    ensures
        range_sum(target_areas(order, area), 0, upto) == 0,
    decreases upto,
{
    if upto > 0 {
        lemma_zero_areas(order, area, upto - 1);
    }
}

/// The keys of the children of `node` that take part in the layout, in
/// layout order.
fn ranked_children(node: &Node) -> (order: Vec<Key>)
    ensures
        order@ == visible_order(node@.children),
{
    let ghost sizes = child_sizes(node@.children);
    let mut keys: Vec<Key> = Vec::new();
    let mut i: usize = 0;
    proof {
        node.lemma_view_children();
        reveal(Seq::filter);
        assert(size_keys(sizes.subrange(0, 0)) =~= Seq::<Key>::empty());
    }
    while i < node.children.len()
        invariant
            i <= node.children@.len(),
            sizes == child_sizes(node@.children),
            node@.children == crate::model::views_of(node.children@),
            keys@ == positive_keys(sizes.subrange(0, i as int)),
        decreases node.children@.len() - i,
    {
        let size = node.children[i].size;
        proof {
            node.children@[i as int].lemma_view_children();
            let key = ((u64::MAX - size) as u64, i);
            assert(size_keys(sizes.subrange(0, i + 1)) =~= size_keys(
                sizes.subrange(0, i as int),
            ).push(key));
            lemma_positive_push(size_keys(sizes.subrange(0, i as int)), key);
        }
        if size > 0 {
            keys.push((u64::MAX - size, i));
        }
        i += 1;
    }
    proof {
        assert(sizes.subrange(0, i as int) =~= sizes);
    }
    rank(&mut keys);
    keys
}

/// The area that each child in `order` is to get out of `area`.
fn share_out(order: &Vec<Key>, area: u64) -> (areas: Vec<u64>)
    requires
        area <= crate::squarify::AREA_LIMIT,
    ensures
        areas@ == target_areas(order@, area as int),
{
    let mut total: u128 = 0;
    let mut k: usize = 0;
    while k < order.len()
        invariant
            k <= order@.len(),
            total == order_total(order@, k as int),
        decreases order@.len() - k,
    {
        proof {
            lemma_order_total_bound(order@, k as int);
            lemma_order_total_bound(order@, k + 1);
            assert((k + 1) * u64::MAX <= 0xffff_ffff_ffff_ffff * 0xffff_ffff_ffff_ffff)
                by (nonlinear_arith)
                requires
                    k + 1 <= 0xffff_ffff_ffff_ffff,
            ;
        }
        total = total + ((u64::MAX - order[k].0) as u128);
        k += 1;
    }
    let mut areas: Vec<u64> = Vec::new();
    let mut k: usize = 0;
    while k < order.len()
        invariant
            k <= order@.len(),
            area <= crate::squarify::AREA_LIMIT,
            total == order_total(order@, order@.len() as int),
            areas@ == target_areas(order@, area as int).subrange(0, k as int),
        decreases order@.len() - k,
    {
        let size: u64 = u64::MAX - order[k].0;
        proof {
            lemma_order_total_part(order@, k + 1);
            lemma_order_total_bound(order@, k as int);
            lemma_share(area as int, size as int, total as int);
            assert((area as u128) * (size as u128) <= 0x3fff_ffff_0000_0001 * 0xffff_ffff_ffff_ffff)
                by (nonlinear_arith)
                requires
                    area <= 0x3fff_ffff_0000_0001,
                    size <= 0xffff_ffff_ffff_ffff,
            ;
        }
        let part: u64 = if total > 0 {
            ((area as u128) * (size as u128) / total) as u64
        } else {
            0
        };
        areas.push(part);
        k += 1;
        proof {
            assert(areas@ =~= target_areas(order@, area as int).subrange(0, k as int));
        }
    }
    proof {
        assert(areas@ =~= target_areas(order@, area as int));
    }
    areas
}

/// Lays out the subtree of `node` in `bounds` at `depth` and appends its
/// cells to `out`, which never grows beyond `max_nodes` cells.
pub fn layout_recursive<'a>(
    node: &'a Node,
    bounds: LayoutRect,
    depth: usize,
    max_depth: usize,
    max_nodes: usize,
    out: &mut Vec<TreemapCell<'a>>,
)
    requires
        bounds.w > 0 && bounds.h > 0 ==> bounds@.representable(),
    ensures
        placed_of(final(out)@) == placed_of(old(out)@) + layout_node(
            node@,
            bounds@,
            depth as nat,
            max_depth as nat,
            budget_left(max_nodes, old(out)@.len()),
        ),
    decreases node@,
{
    let ghost before = placed_of(out@);
    let ghost budget = budget_left(max_nodes, out@.len());
    if out.len() >= max_nodes || bounds.w <= MIN_EXTENT || bounds.h <= MIN_EXTENT {
        proof {
            assert(placed_of(out@) =~= before + Seq::<Placed>::empty());
        }
        return ;
    }
    let cell = TreemapCell { node, rect: bounds, depth };
    out.push(cell);
    let ghost here = seq![cell@];
    proof {
        assert(placed_of(out@) =~= before + here);
        node.lemma_view_children();
    }
    if depth >= max_depth || node.children.len() == 0 {
        return ;
    }
    if bounds.w - 2 * PADDING <= MIN_EXTENT || bounds.h - 2 * PADDING <= MIN_EXTENT {
        return ;
    }
    let inner = bounds.shrink(PADDING);
    let order = ranked_children(node);
    let area = inner.area();
    let areas = share_out(&order, area);
    proof {
        lemma_target_areas_fit(order@, area as int);
        lemma_packed(areas@, inner@);
        lemma_visible_order(node@.children);
    }
    let rects = squarify_items(&areas, inner);
    let ghost spots = rects_of(rects@);
    let mut k: usize = 0;
    while k < order.len()
        invariant
            k <= order@.len() == rects@.len(),
            order@ == visible_order(node@.children),
            spots == rects_of(rects@),
            spots == child_rects(node@, inner@),
            well_packed(areas@, 0, inner@, spots),
            inner@.representable(),
            node@.children == crate::model::views_of(node.children@),
            depth < max_depth,
            forall|j: int| 0 <= j < order@.len() ==> (#[trigger] order@[j]).1 < node.children@.len(),
            placed_of(out@) + layout_items(
                node@,
                order@,
                spots,
                k as int,
                (depth + 1) as nat,
                max_depth as nat,
                budget_left(max_nodes, out@.len()),
            ) == before + here + layout_items(
                node@,
                order@,
                spots,
                0,
                (depth + 1) as nat,
                max_depth as nat,
                (budget - 1) as nat,
            ),
        ensures
            k >= order@.len() || out@.len() >= max_nodes,
        decreases order@.len() - k,
    {
        if out.len() >= max_nodes {
            break ;
        }
        let at = order[k].1;
        proof {
            assert(order@[k as int].1 < node.children@.len());
            assert(inner@.encloses(spots[k as int]));
            assert(spots[k as int] == rects@[k as int]@);
        }
        let ghost earlier = placed_of(out@);
        let ghost left = budget_left(max_nodes, out@.len());
        layout_recursive(&node.children[at], rects[k], depth + 1, max_depth, max_nodes, out);
        proof {
            let first = layout_node(
                node@.children[at as int],
                spots[k as int],
                (depth + 1) as nat,
                max_depth as nat,
                left,
            );
            assert(placed_of(out@) == earlier + first);
            assert(out@.len() == earlier.len() + first.len());
        }
        k += 1;
    }
    proof {
        assert(layout_items(
            node@,
            order@,
            spots,
            k as int,
            (depth + 1) as nat,
            max_depth as nat,
            budget_left(max_nodes, out@.len()),
        ) =~= Seq::<Placed>::empty());
        assert(placed_of(out@) =~= before + (here + layout_items(
            node@,
            order@,
            spots,
            0,
            (depth + 1) as nat,
            max_depth as nat,
            (budget - 1) as nat,
        )));
    }
}

/// Lays out the tree below `root` in `bounds`: one cell for every node
/// down to `max_depth` whose rectangle is large enough, at most
/// `max_nodes` cells in all, in pre-order.
pub fn squarified_treemap<'a>(
    root: &'a Node,
    bounds: LayoutRect,
    max_depth: usize,
    max_nodes: usize,
) -> (cells: Vec<TreemapCell<'a>>)
    requires
        bounds.w > 0 && bounds.h > 0 ==> bounds@.representable(),
    ensures
        placed_of(cells@) == layout(root@, bounds@, max_depth as nat, max_nodes as nat),
{
    let mut cells: Vec<TreemapCell<'a>> = Vec::with_capacity(2048);
    if bounds.w <= 0 || bounds.h <= 0 {
        proof {
            assert(placed_of(cells@) =~= Seq::<Placed>::empty());
        }
        return cells;
    }
    proof {
        assert(placed_of(cells@) =~= Seq::<Placed>::empty());
    }
    layout_recursive(root, bounds, 0, max_depth, max_nodes, &mut cells);
    proof {
        assert(placed_of(cells@) =~= layout(root@, bounds@, max_depth as nat, max_nodes as nat));
    }
    cells
}


/// The sum of the areas of the first `upto` rectangles.
pub open spec fn covered_area(rects: Seq<Rect>, upto: int) -> int
    decreases upto,
{
    if upto <= 0 {
        0
    } else {
        covered_area(rects, upto - 1) + rects[upto - 1].area()
    }
}

proof fn lemma_covered_area(areas: Seq<u64>, rects: Seq<Rect>, upto: int)
    requires
        0 <= upto <= rects.len() == areas.len(),
        forall|i: int| 0 <= i < rects.len() ==> (#[trigger] rects[i]).area() <= areas[i],
    ensures
        covered_area(rects, upto) <= range_sum(areas, 0, upto),
    decreases upto,
{
    if upto > 0 {
        lemma_covered_area(areas, rects, upto - 1);
        assert(rects[upto - 1].area() <= areas[upto - 1]);
    }
}

/// The rectangles that the children of a node get. With `inner` the
/// node's rectangle less the margin, `A` its area, `s` the size of a child
/// and `T` the sum of the sizes of the children that take part:
///
/// - every child's rectangle lies within `inner`;
/// - no two children's rectangles overlap;
/// - a child's rectangle has at most the area `A * s / T`, and falls short
///   of it by less than its width plus its height plus one;
/// - together the children's rectangles cover at most `A`.
pub proof fn lemma_child_rects(t: Tree, rect: Rect)
    requires
        rect.shrink(PADDING as int).area() <= u64::MAX,
    ensures
        ({
            let inner = rect.shrink(PADDING as int);
            let order = visible_order(t.children);
            let rects = child_rects(t, inner);
            let total = order_total(order, order.len() as int);
            &&& rects.len() == order.len()
            &&& forall|k: int| 0 <= k < rects.len() ==> inner.encloses(#[trigger] rects[k])
            &&& forall|j: int, k: int|
                0 <= j < k < rects.len() ==> (#[trigger] rects[j]).apart_from(#[trigger] rects[k])
            &&& forall|k: int|
                0 <= k < rects.len() ==> {
                    &&& (#[trigger] rects[k]).area() * total <= inner.area() * key_size(order[k])
                    &&& total > 0 ==> inner.area() * key_size(order[k]) < (rects[k].area()
                        + rects[k].w + rects[k].h + 1) * total
                }
            &&& covered_area(rects, rects.len() as int) <= inner.area()
        }),
{
    let inner = rect.shrink(PADDING as int);
    let order = visible_order(t.children);
    let area = inner.area();
    let areas = target_areas(order, area);
    let rects = child_rects(t, inner);
    let total = order_total(order, order.len() as int);
    assert(0 <= area) by (nonlinear_arith)
        requires
            area == inner.w * inner.h,
            inner.w >= 0,
            inner.h >= 0,
    ;
    lemma_target_areas_fit(order, area);
    lemma_target_areas_part(order, area, order.len() as int);
    lemma_packed(areas, inner);
    lemma_covered_area(areas, rects, rects.len() as int);
    assert forall|k: int| 0 <= k < rects.len() implies {
        &&& (#[trigger] rects[k]).area() * total <= inner.area() * key_size(order[k])
        &&& total > 0 ==> inner.area() * key_size(order[k]) < (rects[k].area() + rects[k].w
            + rects[k].h + 1) * total
    } by {
        let size = key_size(order[k]) as int;
        let got = rects[k].area();
        let aim = areas[k] as int;
        let slack = rects[k].w + rects[k].h;
        lemma_order_total_part(order, k + 1);
        lemma_order_total_bound(order, k);
        lemma_share(area, size, total);
        assert(aim == share(area, size, total));
        assert(got <= aim <= got + slack);
        assert(got * total <= area * size) by (nonlinear_arith)
            requires
                got <= aim,
                aim * total <= area * size,
                total >= 0,
        ;
        if total > 0 {
            assert(area * size < (got + slack + 1) * total) by (nonlinear_arith)
                requires
                    area * size < (aim + 1) * total,
                    aim <= got + slack,
                    total > 0,
            ;
        }
    }
}

/// A layout holds at most as many cells as the budget allows. Its first
/// cell, if it has one, is the node itself in the rectangle given, and all
/// further cells lie deeper.
pub proof fn lemma_layout_node(t: Tree, rect: Rect, depth: nat, max_depth: nat, budget: nat)
    ensures
        layout_node(t, rect, depth, max_depth, budget).len() <= budget,
        layout_node(t, rect, depth, max_depth, budget).len() > 0 ==> layout_node(
            t,
            rect,
            depth,
            max_depth,
            budget,
        )[0] == (Placed { node: t, rect, depth }),
        forall|i: int|
            1 <= i < layout_node(t, rect, depth, max_depth, budget).len() ==> (#[trigger] layout_node(
                t,
                rect,
                depth,
                max_depth,
                budget,
            )[i]).depth > depth,
    decreases t, 1int, 0int,
{
    let out = layout_node(t, rect, depth, max_depth, budget);
    if out.len() > 1 {
        let inner = rect.shrink(PADDING as int);
        lemma_layout_items(
            t,
            visible_order(t.children),
            child_rects(t, inner),
            0,
            depth + 1,
            max_depth,
            (budget - 1) as nat,
        );
    }
}

/// The cells of the children hold at most as many cells as the budget
/// allows, none above the children's depth.
pub proof fn lemma_layout_items(
    t: Tree,
    order: Seq<Key>,
    rects: Seq<Rect>,
    from: int,
    depth: nat,
    max_depth: nat,
    budget: nat,
)
    ensures
        layout_items(t, order, rects, from, depth, max_depth, budget).len() <= budget,
        forall|i: int|
            0 <= i < layout_items(t, order, rects, from, depth, max_depth, budget).len() ==> (
            #[trigger] layout_items(t, order, rects, from, depth, max_depth, budget)[i]).depth
                >= depth,
    decreases t, 0int, order.len() - from,
{
    if !(from < 0 || from >= order.len() || budget == 0) {
        let at = order[from].1 as int;
        let first = if 0 <= at < t.children.len() {
            layout_node(t.children[at], rects[from], depth, max_depth, budget)
        } else {
            Seq::empty()
        };
        if 0 <= at < t.children.len() {
            lemma_layout_node(t.children[at], rects[from], depth, max_depth, budget);
        }
        let left: nat = if first.len() >= budget {
            0
        } else {
            (budget - first.len()) as nat
        };
        lemma_layout_items(t, order, rects, from + 1, depth, max_depth, left);
    }
}


/// Adding a key's size to a sum.
pub open spec fn add_size() -> spec_fn(int, Key) -> int {
    |sum: int, key: Key| sum + key_size(key)
}

proof fn lemma_order_total_is_fold(order: Seq<Key>, upto: int)
    requires
        0 <= upto <= order.len(),
    ensures
        order_total(order, upto) == order.subrange(0, upto).fold_left(0, add_size()),
    decreases upto,
{
    if upto > 0 {
        lemma_order_total_is_fold(order, upto - 1);
        assert(order.subrange(0, upto).drop_last() =~= order.subrange(0, upto - 1));
    }
}

proof fn lemma_positive_total(kids: Seq<Tree>)
    ensures
        positive_keys(child_sizes(kids)).fold_left(0, add_size()) == exact_total(kids),
    decreases kids.len(),
{
    reveal(Seq::filter);
    let keys = size_keys(child_sizes(kids));
    if kids.len() > 0 {
        let fewer = kids.drop_last();
        lemma_positive_total(fewer);
        let last = keys.last();
        assert(keys.drop_last() =~= size_keys(child_sizes(fewer)));
        assert(keys =~= size_keys(child_sizes(fewer)).push(last));
        lemma_positive_push(size_keys(child_sizes(fewer)), last);
        assert(key_size(last) == kids.last().size);
        if is_positive(last) {
            assert(positive_keys(child_sizes(kids)).drop_last() =~= positive_keys(
                child_sizes(fewer),
            ));
        }
    }
}

/// The sizes of the children that take part add up to the sizes of all the
/// children: those left out have size zero.
pub proof fn lemma_order_total_is_children_total(kids: Seq<Tree>)
    ensures
        order_total(visible_order(kids), visible_order(kids).len() as int) == exact_total(kids),
{
    let kept = positive_keys(child_sizes(kids));
    let order = visible_order(kids);
    lemma_ranked(kept);
    lemma_order_total_is_fold(order, order.len() as int);
    assert(order.subrange(0, order.len() as int) =~= order);
    lemma_positive_total(kids);
    assert(commutative_foldl(add_size()));
    lemma_fold_left_permutation(order, kept, add_size(), 0int);
}


/// Proportionality. The child that comes `k`-th in the layout of a node
/// gets a rectangle whose area is its share of the area shared out, by its
/// size among the sizes of all the children: never more, and less by no
/// more than rounding takes, which is below the rectangle's width plus its
/// height plus one.
pub proof fn lemma_child_area_is_proportional(t: Tree, rect: Rect, k: int)
    requires
        t.children.len() <= usize::MAX,
        rect.shrink(PADDING as int).area() <= u64::MAX,
        0 <= k < visible_order(t.children).len(),
    ensures
        ({
            let inner = rect.shrink(PADDING as int);
            let at = visible_order(t.children)[k].1 as int;
            let got = child_rects(t, inner)[k];
            let total = exact_total(t.children);
            &&& 0 <= at < t.children.len()
            &&& t.children[at].size > 0
            &&& total > 0
            &&& got.area() * total <= inner.area() * t.children[at].size
            &&& inner.area() * t.children[at].size < (got.area() + got.w + got.h + 1) * total
        }),
{
    let order = visible_order(t.children);
    lemma_visible_order(t.children);
    lemma_child_rects(t, rect);
    lemma_order_total_is_children_total(t.children);
    lemma_order_total_part(order, k + 1);
    lemma_order_total_bound(order, k);
    assert(key_size(order[k]) == t.children[order[k].1 as int].size);
}

} // verus!
