//! Packing a list of target areas into a rectangle, row by row.
//!
//! Items are taken in the order given. Each is added to the current row
//! unless that would make the row's worst aspect ratio larger; then the row
//! is closed, laid out as a strip along the shorter side of what is left of
//! the rectangle, and the item opens the next row.

use vstd::prelude::*;
use crate::geometry::{at_least_zero, lemma_area_limit, lemma_share, share, LayoutRect, Rect};
use crate::wide::product_le;

verus! {

/// The sum of `areas[start..end]`.
pub open spec fn range_sum(areas: Seq<u64>, start: int, end: int) -> int
    decreases end - start,
{
    if end <= start {
        0
    } else {
        range_sum(areas, start, end - 1) + areas[end - 1]
    }
}

/// The least of `areas[start..end]`; of an empty range, `areas[start]`.
pub open spec fn range_min(areas: Seq<u64>, start: int, end: int) -> int
    decreases end - start,
{
    if end <= start + 1 {
        areas[start] as int
    } else {
        let rest = range_min(areas, start, end - 1);
        if areas[end - 1] < rest {
            areas[end - 1] as int
        } else {
            rest
        }
    }
}

/// The greatest of `areas[start..end]`; of an empty range, `areas[start]`.
pub open spec fn range_max(areas: Seq<u64>, start: int, end: int) -> int
    decreases end - start,
{
    if end <= start + 1 {
        areas[start] as int
    } else {
        let rest = range_max(areas, start, end - 1);
        if areas[end - 1] > rest {
            areas[end - 1] as int
        } else {
            rest
        }
    }
}

/// The side that a row is measured against: the shorter side of what is
/// left.
pub open spec fn row_side(rest: Rect) -> int {
    rest.shortest_side()
}

/// The worst aspect ratio among the items of a row, as a fraction
/// `(numerator, denominator)`: the greater of `side² · most / sum²` and
/// `sum² / (side² · least)`. Meant for `least > 0`.
pub open spec fn worst_ratio(sum: int, least: int, most: int, side: int) -> (int, int) {
    let side_sq = side * side;
    let sum_sq = sum * sum;
    if (side_sq * most) * (side_sq * least) >= sum_sq * sum_sq {
        (side_sq * most, sum_sq)
    } else {
        (sum_sq, side_sq * least)
    }
}

/// Whether a row with the given sum, least and greatest area can take an
/// item of area `next` without its worst ratio growing. A row that holds an
/// item of area zero, or that is measured against a side of no length, has
/// an unbounded ratio, which nothing makes larger.
pub open spec fn row_keeps_ratio(sum: int, least: int, most: int, next: int, side: int) -> bool {
    if side <= 0 || least <= 0 {
        true
    } else if next <= 0 {
        false
    } else {
        let row = worst_ratio(sum, least, most, side);
        let longer = worst_ratio(
            sum + next,
            if next < least {
                next
            } else {
                least
            },
            if next > most {
                next
            } else {
                most
            },
            side,
        );
        longer.0 * row.1 <= row.0 * longer.1
    }
}

/// Whether the row `areas[start..end]` can take `areas[end]` without its
/// worst ratio growing.
pub open spec fn keeps_ratio(areas: Seq<u64>, start: int, end: int, side: int) -> bool {
    row_keeps_ratio(
        range_sum(areas, start, end),
        range_min(areas, start, end),
        range_max(areas, start, end),
        areas[end] as int,
        side,
    )
}

/// The thickness of a strip that holds `total` area along `length`.
pub open spec fn thickness(total: int, length: int) -> int {
    if length > 0 {
        total / length
    } else {
        0
    }
}

/// The sum of the lengths that the items `areas[start..upto]` take along a
/// strip of the given length, in a row of area `total`.
pub open spec fn lengths_before(areas: Seq<u64>, start: int, upto: int, length: int, total: int) -> int
    decreases upto - start,
{
    if upto <= start {
        0
    } else {
        lengths_before(areas, start, upto - 1, length, total) + share(
            length,
            areas[upto - 1] as int,
            total,
        )
    }
}

/// The rectangle of item `at` of the row `areas[start..end]`, laid out
/// against `rest`. Where `rest` is at least as wide as high, the row is a
/// vertical strip at the left of `rest`, its items one below the other;
/// otherwise a horizontal strip at the top, its items side by side.
pub open spec fn strip_rect(areas: Seq<u64>, start: int, end: int, rest: Rect, at: int) -> Rect {
    let total = range_sum(areas, start, end);
    if rest.w >= rest.h {
        Rect {
            x: rest.x,
            y: rest.y + lengths_before(areas, start, at, rest.h, total),
            w: thickness(total, rest.h),
            h: share(rest.h, areas[at] as int, total),
        }
    } else {
        Rect {
            x: rest.x + lengths_before(areas, start, at, rest.w, total),
            y: rest.y,
            w: share(rest.w, areas[at] as int, total),
            h: thickness(total, rest.w),
        }
    }
}

/// The rectangles of the row `areas[start..end]`, in order.
pub open spec fn strip_rects(areas: Seq<u64>, start: int, end: int, rest: Rect) -> Seq<Rect> {
    Seq::new((end - start) as nat, |i: int| strip_rect(areas, start, end, rest, start + i))
}

/// What is left of `rest` once the row `areas[start..end]` is laid out.
pub open spec fn strip_rest(areas: Seq<u64>, start: int, end: int, rest: Rect) -> Rect {
    let total = range_sum(areas, start, end);
    if rest.w >= rest.h {
        let used = thickness(total, rest.h);
        Rect { x: rest.x + used, y: rest.y, w: at_least_zero(rest.w - used), h: rest.h }
    } else {
        let used = thickness(total, rest.w);
        Rect { x: rest.x, y: rest.y + used, w: rest.w, h: at_least_zero(rest.h - used) }
    }
}

/// The rectangles of the items `areas[start..]`, where `areas[start..end]`
/// is the row being filled and `rest` is what is left of the rectangle.
pub open spec fn squarify(areas: Seq<u64>, start: int, end: int, rest: Rect) -> Seq<Rect>
    decreases areas.len() - end,
{
    if end >= areas.len() {
        if start < end {
            strip_rects(areas, start, end, rest)
        } else {
            Seq::empty()
        }
    } else if start >= end || keeps_ratio(areas, start, end, row_side(rest)) {
        squarify(areas, start, end + 1, rest)
    } else {
        strip_rects(areas, start, end, rest) + squarify(
            areas,
            end,
            end + 1,
            strip_rest(areas, start, end, rest),
        )
    }
}

/// The rectangles of all the items, packed into `bounds`.
pub open spec fn packed(areas: Seq<u64>, bounds: Rect) -> Seq<Rect> {
    squarify(areas, 0, 0, bounds)
}


/// The largest area that a rectangle in units can have.
pub const AREA_LIMIT: u64 = 0x3fff_ffff_0000_0001;

/// The mathematical values of a list of rectangles.
pub open spec fn rects_of(rects: Seq<LayoutRect>) -> Seq<Rect> {
    Seq::new(rects.len(), |i: int| rects[i]@)
}

/// A sum of areas is not negative.
pub proof fn lemma_range_sum_sign(areas: Seq<u64>, start: int, end: int)
    ensures
        0 <= range_sum(areas, start, end),
    decreases end - start,
{
    if end > start {
        lemma_range_sum_sign(areas, start, end - 1);
    }
}

/// The sum over a range is the sum over its two parts.
pub proof fn lemma_range_sum(areas: Seq<u64>, start: int, mid: int, end: int)
    requires
        0 <= start <= mid <= end <= areas.len(),
    ensures
        range_sum(areas, start, end) == range_sum(areas, start, mid) + range_sum(areas, mid, end),
        0 <= range_sum(areas, start, mid),
        0 <= range_sum(areas, mid, end),
    decreases end - mid,
{
    lemma_range_sum_sign(areas, start, mid);
    lemma_range_sum_sign(areas, mid, end);
    if mid < end {
        lemma_range_sum(areas, start, mid, end - 1);
    }
}

/// Every item of a row is between the row's least and greatest, and at
/// most the row's sum.
pub proof fn lemma_range_stats(areas: Seq<u64>, start: int, end: int, at: int)
    requires
        0 <= start <= at < end <= areas.len(),
    ensures
        range_min(areas, start, end) <= areas[at] <= range_max(areas, start, end),
        areas[at] <= range_sum(areas, start, end),
        0 <= range_min(areas, start, end) <= range_max(areas, start, end) <= range_sum(
            areas,
            start,
            end,
        ),
    decreases end - start,
{
    lemma_range_sum(areas, start, end - 1, end);
    if end > start + 1 {
        if at < end - 1 {
            lemma_range_stats(areas, start, end - 1, at);
        } else {
            lemma_range_stats(areas, start, end - 1, start);
        }
    } else {
        assert(range_sum(areas, start, end - 1) == 0);
    }
}

/// The lengths of the first items of a row add up to no more than the
/// strip's length.
pub proof fn lemma_lengths_fit(areas: Seq<u64>, start: int, upto: int, end: int, length: int)
    requires
        0 <= start <= upto <= end <= areas.len(),
        0 <= length,
    ensures
        0 <= lengths_before(areas, start, upto, length, range_sum(areas, start, end)) <= length,
        lengths_before(areas, start, upto, length, range_sum(areas, start, end)) * range_sum(
            areas,
            start,
            end,
        ) <= length * range_sum(areas, start, upto),
    decreases upto - start,
{
    let total = range_sum(areas, start, end);
    lemma_range_sum(areas, start, upto, end);
    if upto > start {
        lemma_lengths_fit(areas, start, upto - 1, end, length);
        lemma_range_stats(areas, start, end, upto - 1);
        lemma_share(length, areas[upto - 1] as int, total);
        let before = lengths_before(areas, start, upto - 1, length, total);
        let here = share(length, areas[upto - 1] as int, total);
        let part = range_sum(areas, start, upto - 1);
        let item = areas[upto - 1] as int;
        assert((before + here) * total <= length * (part + item)) by (nonlinear_arith)
            requires
                before * total <= length * part,
                here * total <= length * item,
        ;
        let whole = range_sum(areas, start, upto);
        if total > 0 {
            assert(before + here <= length) by (nonlinear_arith)
                requires
                    (before + here) * total <= length * whole,
                    0 <= whole <= total,
                    0 <= length,
                    total > 0,
            ;
        }
    } else {
        assert(0 * total == 0);
        assert(length * 0 == 0);
    }
}

/// The strip that holds `total` area against `bounds` can be addressed:
/// its thickness and its far edge are within `i32`.
pub open spec fn strip_fits(total: int, bounds: Rect) -> bool {
    if bounds.w >= bounds.h {
        thickness(total, bounds.h) <= i32::MAX && bounds.x + thickness(total, bounds.h)
            <= i32::MAX
    } else {
        thickness(total, bounds.w) <= i32::MAX && bounds.y + thickness(total, bounds.w)
            <= i32::MAX
    }
}

/// A strip's thickness times its length is at most the area it holds.
pub proof fn lemma_thickness_holds(total: int, length: int)
    requires
        0 <= total,
        0 <= length,
    ensures
        0 <= thickness(total, length),
        thickness(total, length) * length <= total,
{
    if length > 0 {
        let t = total / length;
        assert(t * length <= total && 0 <= t) by (nonlinear_arith)
            requires
                t == total / length,
                length > 0,
                total >= 0,
        ;
    }
}

/// A strip is no thicker than the area it holds allows.
pub proof fn lemma_thickness(total: int, length: int, across: int)
    requires
        0 <= total <= across * length,
        0 <= length,
        0 <= across,
    ensures
        0 <= thickness(total, length) <= across,
        thickness(total, length) * length <= total,
        (across - thickness(total, length)) * length >= across * length - total,
{
    if length > 0 {
        let t = total / length;
        assert(t * length <= total && 0 <= t) by (nonlinear_arith)
            requires
                t == total / length,
                length > 0,
                total >= 0,
        ;
        assert(t <= across) by (nonlinear_arith)
            requires
                t * length <= total,
                total <= across * length,
                length > 0,
        ;
        assert((across - t) * length == across * length - t * length) by (nonlinear_arith);
    } else {
        assert(across * length == 0) by (nonlinear_arith)
            requires
                length == 0,
        ;
    }
}

/// A strip that holds no more than the area of the bounds can be
/// addressed where the bounds can.
pub proof fn lemma_strip_fits(total: int, bounds: Rect)
    requires
        bounds.representable(),
        bounds.w <= i32::MAX,
        bounds.h <= i32::MAX,
        0 <= total <= bounds.area(),
    ensures
        strip_fits(total, bounds),
{
    let vertical = bounds.w >= bounds.h;
    let length = if vertical {
        bounds.h
    } else {
        bounds.w
    };
    let across = if vertical {
        bounds.w
    } else {
        bounds.h
    };
    assert(bounds.area() == across * length) by (nonlinear_arith)
        requires
            bounds.area() == at_least_zero(bounds.w) * at_least_zero(bounds.h),
            bounds.w >= 0,
            bounds.h >= 0,
            (across == bounds.w && length == bounds.h) || (across == bounds.h && length
                == bounds.w),
    ;
    lemma_thickness(total, length, across);
}

/// Lays the row `areas[start..end]`, of area `total`, out against `bounds`,
/// appends its rectangles to `output`, and returns what is left of `bounds`.
pub fn layout_row(
    areas: &Vec<u64>,
    start: usize,
    end: usize,
    total: u64,
    bounds: LayoutRect,
    output: &mut Vec<LayoutRect>,
) -> (rest: LayoutRect)
    requires
        start < end <= areas.len(),
        total == range_sum(areas@, start as int, end as int),
        bounds@.representable(),
        strip_fits(total as int, bounds@),
    ensures
        rects_of(final(output)@) == rects_of(old(output)@) + strip_rects(
            areas@,
            start as int,
            end as int,
            bounds@,
        ),
        rest@ == strip_rest(areas@, start as int, end as int, bounds@),
        rest@.representable(),
        bounds@.area() - total <= rest@.area(),
{
    let vertical = bounds.w >= bounds.h;
    let length: i32 = if vertical {
        bounds.h
    } else {
        bounds.w
    };
    let across: i32 = if vertical {
        bounds.w
    } else {
        bounds.h
    };
    proof {
        assert(bounds@.area() == across * length) by (nonlinear_arith)
            requires
                bounds@.area() == at_least_zero(bounds.w as int) * at_least_zero(bounds.h as int),
                bounds.w >= 0,
                bounds.h >= 0,
                (across == bounds.w && length == bounds.h) || (across == bounds.h && length
                    == bounds.w),
        ;
        lemma_thickness_holds(total as int, length as int);
    }
    let thick: i32 = if length > 0 {
        (total / (length as u64)) as i32
    } else {
        0
    };
    let mut offset: i32 = 0;
    let mut at: usize = start;
    while at < end
        invariant
            start <= at <= end <= areas.len(),
            total == range_sum(areas@, start as int, end as int),
            bounds@.representable(),
            length >= 0,
            length == (if vertical {
                bounds.h
            } else {
                bounds.w
            }),
            vertical == (bounds.w >= bounds.h),
            thick == thickness(total as int, length as int),
            0 <= thick,
            strip_fits(total as int, bounds@),
            across == (if vertical {
                bounds.w
            } else {
                bounds.h
            }),
            offset == lengths_before(areas@, start as int, at as int, length as int, total as int),
            rects_of(output@) == rects_of(old(output)@) + strip_rects(
                areas@,
                start as int,
                end as int,
                bounds@,
            ).subrange(0, at - start),
        decreases end - at,
    {
        proof {
            lemma_lengths_fit(areas@, start as int, at as int, end as int, length as int);
            lemma_lengths_fit(areas@, start as int, at + 1, end as int, length as int);
            lemma_range_stats(areas@, start as int, end as int, at as int);
            lemma_share(length as int, areas@[at as int] as int, total as int);
            assert((length as u128) * (areas@[at as int] as u128) <= 0x7fff_ffff
                * 0xffff_ffff_ffff_ffff) by (nonlinear_arith)
                requires
                    0 <= length <= 0x7fff_ffff,
                    areas@[at as int] <= 0xffff_ffff_ffff_ffff,
            ;
        }
        let along: i32 = if total > 0 {
            ((length as u128) * (areas[at] as u128) / (total as u128)) as i32
        } else {
            0
        };
        let rect = if vertical {
            LayoutRect { x: bounds.x, y: bounds.y + offset, w: thick, h: along }
        } else {
            LayoutRect { x: bounds.x + offset, y: bounds.y, w: along, h: thick }
        };
        let ghost earlier = output@;
        output.push(rect);
        proof {
            let strip = strip_rects(areas@, start as int, end as int, bounds@);
            assert(rect@ == strip[at - start]);
            assert(rects_of(output@) =~= rects_of(earlier).push(rect@));
            assert(strip.subrange(0, at + 1 - start) =~= strip.subrange(0, at - start).push(
                strip[at - start],
            ));
            assert(rects_of(output@) =~= rects_of(old(output)@) + strip.subrange(
                0,
                at + 1 - start,
            ));
        }
        offset = offset + along;
        at += 1;
    }
    proof {
        let strip = strip_rects(areas@, start as int, end as int, bounds@);
        assert(strip.subrange(0, end - start) =~= strip);
    }
    let rest = if vertical {
        LayoutRect {
            x: bounds.x + thick,
            y: bounds.y,
            w: if bounds.w > thick {
                bounds.w - thick
            } else {
                0
            },
            h: bounds.h,
        }
    } else {
        LayoutRect {
            x: bounds.x,
            y: bounds.y + thick,
            w: bounds.w,
            h: if bounds.h > thick {
                bounds.h - thick
            } else {
                0
            },
        }
    };
    proof {
        let left = at_least_zero(across - thick);
        assert(rest@.area() == left * length) by (nonlinear_arith)
            requires
                rest@.area() == at_least_zero(rest.w as int) * at_least_zero(rest.h as int),
                rest.w >= 0,
                rest.h >= 0,
                (left == rest.w && length == rest.h) || (left == rest.h && length == rest.w),
        ;
        assert(left * length >= across * length - thick * length) by (nonlinear_arith)
            requires
                left >= across - thick,
                left >= 0,
                length >= 0,
        ;
    }
    rest
}


/// Whether a row with the given sum, least and greatest area can take an
/// item of area `next` without its worst ratio against `side` growing.
pub fn keeps_worst_ratio(sum: u64, least: u64, most: u64, next: u64, side: i32) -> (keeps: bool)
    requires
        least <= most <= sum,
        sum + next <= AREA_LIMIT,
    ensures
        keeps == row_keeps_ratio(sum as int, least as int, most as int, next as int, side as int),
{
    if side <= 0 || least == 0 {
        return true;
    }
    if next == 0 {
        return false;
    }
    assert(side * side <= 0x7fff_ffff * 0x7fff_ffff) by (nonlinear_arith)
        requires
            0 < side <= 0x7fff_ffff,
    ;
    let side_sq: u128 = (side as u128) * (side as u128);
    let longer_sum: u64 = sum + next;
    let longer_least: u64 = if next < least {
        next
    } else {
        least
    };
    let longer_most: u64 = if next > most {
        next
    } else {
        most
    };
    let row = worst_ratio_of(sum, least, most, side_sq);
    let longer = worst_ratio_of(longer_sum, longer_least, longer_most, side_sq);
    product_le(longer.0, row.1, row.0, longer.1)
}

/// The worst ratio of a row, as numerator and denominator, from the square
/// of the side.
fn worst_ratio_of(sum: u64, least: u64, most: u64, side_sq: u128) -> (ratio: (u128, u128))
    requires
        0 < least <= most <= sum <= AREA_LIMIT,
        side_sq <= 0x3fff_ffff_0000_0001,
    ensures
        ratio.0 < crate::wide::FACTOR_LIMIT,
        ratio.1 < crate::wide::FACTOR_LIMIT,
        forall|side: int|
            side * side == side_sq ==> (ratio.0 as int, ratio.1 as int) == #[trigger] worst_ratio(
                sum as int,
                least as int,
                most as int,
                side,
            ),
{
    assert(side_sq * most <= 0x3fff_ffff_0000_0001 * 0x3fff_ffff_0000_0001) by (nonlinear_arith)
        requires
            side_sq <= 0x3fff_ffff_0000_0001,
            most <= 0x3fff_ffff_0000_0001,
    ;
    assert(side_sq * least <= 0x3fff_ffff_0000_0001 * 0x3fff_ffff_0000_0001) by (nonlinear_arith)
        requires
            side_sq <= 0x3fff_ffff_0000_0001,
            least <= 0x3fff_ffff_0000_0001,
    ;
    assert(sum * sum <= 0x3fff_ffff_0000_0001 * 0x3fff_ffff_0000_0001) by (nonlinear_arith)
        requires
            sum <= 0x3fff_ffff_0000_0001,
    ;
    let sum_sq: u128 = (sum as u128) * (sum as u128);
    let by_most: u128 = side_sq * (most as u128);
    let by_least: u128 = side_sq * (least as u128);
    if product_le(sum_sq, sum_sq, by_most, by_least) {
        (by_most, sum_sq)
    } else {
        (sum_sq, by_least)
    }
}

/// Packs the areas, in the order given, into `bounds` and returns the
/// rectangle of each.
pub fn squarify_items(areas: &Vec<u64>, bounds: LayoutRect) -> (rects: Vec<LayoutRect>)
    requires
        bounds@.representable(),
        range_sum(areas@, 0, areas.len() as int) <= bounds@.area(),
    ensures
        rects_of(rects@) == packed(areas@, bounds@),
{
    let mut output: Vec<LayoutRect> = Vec::new();
    let mut rest = bounds;
    let mut start: usize = 0;
    let mut end: usize = 0;
    let mut sum: u64 = 0;
    let mut least: u64 = 0;
    let mut most: u64 = 0;
    proof {
        assert(rects_of(output@) + squarify(areas@, 0, 0, rest@) =~= packed(areas@, bounds@));
    }
    while end < areas.len()
        invariant
            start <= end <= areas.len(),
            rest@.representable(),
            range_sum(areas@, start as int, areas.len() as int) <= rest@.area(),
            start < end ==> sum == range_sum(areas@, start as int, end as int),
            start < end ==> least == range_min(areas@, start as int, end as int),
            start < end ==> most == range_max(areas@, start as int, end as int),
            rects_of(output@) + squarify(areas@, start as int, end as int, rest@) == packed(
                areas@,
                bounds@,
            ),
        decreases areas.len() - end,
    {
        let next = areas[end];
        let side = rest.shortest_side();
        proof {
            lemma_range_sum(areas@, start as int, end as int, areas.len() as int);
            lemma_range_sum(areas@, start as int, end + 1, areas.len() as int);
            lemma_range_sum(areas@, end as int, end + 1, areas.len() as int);
            if start < end {
                lemma_range_stats(areas@, start as int, end as int, start as int);
            }
            lemma_area_limit(rest);
        }
        if start == end {
            sum = next;
            least = next;
            most = next;
        } else if keeps_worst_ratio(sum, least, most, next, side) {
            sum = sum + next;
            if next < least {
                least = next;
            }
            if next > most {
                most = next;
            }
        } else {
            proof {
                lemma_strip_fits(sum as int, rest@);
            }
            rest = layout_row(areas, start, end, sum, rest, &mut output);
            proof {
                assert(rest@.area() >= range_sum(areas@, end as int, areas.len() as int));
            }
            start = end;
            sum = next;
            least = next;
            most = next;
        }
        end += 1;
    }
    if start < end {
        proof {
            lemma_range_sum(areas@, start as int, end as int, areas.len() as int);
            lemma_strip_fits(sum as int, rest@);
        }
        let _ = layout_row(areas, start, end, sum, rest, &mut output);
    }
    proof {
        assert(rects_of(output@) =~= packed(areas@, bounds@));
    }
    output
}


/// Lengths along a strip add up from the left.
pub proof fn lemma_lengths_grow(areas: Seq<u64>, start: int, a: int, b: int, length: int, total: int)
    requires
        0 <= start <= a <= b <= areas.len(),
        0 <= length,
        0 <= total,
    ensures
        0 <= lengths_before(areas, start, a, length, total) <= lengths_before(
            areas,
            start,
            b,
            length,
            total,
        ),
    decreases b - start,
{
    if b > start {
        if a < b {
            lemma_lengths_grow(areas, start, a, b - 1, length, total);
        } else {
            lemma_lengths_grow(areas, start, a - 1, b - 1, length, total);
        }
        if total > 0 {
            let p = length * areas[b - 1];
            assert(0 <= p / total) by (nonlinear_arith)
                requires
                    p == length * areas[b - 1],
                    0 <= length,
                    0 <= areas[b - 1],
                    total > 0,
            ;
        }
    }
}

/// One item of a row: its rectangle lies within what was left, ahead of
/// what the row leaves over; its area is at most the item's target area,
/// and short of it by less than its half perimeter plus one.
pub proof fn lemma_strip_item(areas: Seq<u64>, start: int, end: int, rest: Rect, at: int)
    requires
        0 <= start <= at < end <= areas.len(),
        0 <= rest.w,
        0 <= rest.h,
        range_sum(areas, start, end) <= rest.area(),
    ensures
        rest.encloses(strip_rect(areas, start, end, rest, at)),
        rest.encloses(strip_rest(areas, start, end, rest)),
        rest.area() - range_sum(areas, start, end) <= strip_rest(areas, start, end, rest).area(),
        ({
            let item = strip_rect(areas, start, end, rest, at);
            let left = strip_rest(areas, start, end, rest);
            &&& (item.x + item.w <= left.x || item.y + item.h <= left.y)
            &&& item.area() <= areas[at]
            &&& areas[at] <= item.area() + item.w + item.h
        }),
{
    let total = range_sum(areas, start, end);
    let vertical = rest.w >= rest.h;
    let length = if vertical {
        rest.h
    } else {
        rest.w
    };
    let across = if vertical {
        rest.w
    } else {
        rest.h
    };
    assert(rest.area() == across * length) by (nonlinear_arith)
        requires
            rest.area() == at_least_zero(rest.w) * at_least_zero(rest.h),
            rest.w >= 0,
            rest.h >= 0,
            (across == rest.w && length == rest.h) || (across == rest.h && length == rest.w),
    ;
    lemma_range_sum_sign(areas, start, end);
    lemma_thickness(total, length, across);
    lemma_lengths_fit(areas, start, at, end, length);
    lemma_lengths_fit(areas, start, at + 1, end, length);
    lemma_range_stats(areas, start, end, at);
    lemma_share(length, areas[at] as int, total);
    let thick = thickness(total, length);
    let along = share(length, areas[at] as int, total);
    let item = strip_rect(areas, start, end, rest, at);
    let left = strip_rest(areas, start, end, rest);
    assert(left.area() == (across - thick) * length) by (nonlinear_arith)
        requires
            left.area() == at_least_zero(left.w) * at_least_zero(left.h),
            left.w >= 0,
            left.h >= 0,
            (across - thick == left.w && length == left.h) || (across - thick == left.h && length
                == left.w),
    ;
    assert(item.area() == thick * along) by (nonlinear_arith)
        requires
            item.area() == at_least_zero(item.w) * at_least_zero(item.h),
            item.w >= 0,
            item.h >= 0,
            (thick == item.w && along == item.h) || (thick == item.h && along == item.w),
    ;
    let area = areas[at] as int;
    if total > 0 && length > 0 {
        assert(thick * along <= area) by (nonlinear_arith)
            requires
                thick * length <= total,
                along * total <= length * area,
                0 <= thick,
                0 <= along,
                total > 0,
                length > 0,
        ;
        assert(total < (thick + 1) * length) by (nonlinear_arith)
            requires
                thick == total / length,
                length > 0,
                total >= 0,
        ;
        assert(area < (along + 1) * (thick + 1)) by (nonlinear_arith)
            requires
                length * area < (along + 1) * total,
                total < (thick + 1) * length,
                0 <= along,
                0 <= thick,
                length > 0,
                0 <= area,
        ;
        assert((along + 1) * (thick + 1) == thick * along + thick + along + 1) by (nonlinear_arith);
    } else {
        assert(thick * along == 0) by (nonlinear_arith)
            requires
                thick == 0 || along == 0,
        ;
        if length == 0 {
            assert(across * length == 0) by (nonlinear_arith)
                requires
                    length == 0,
            ;
        }
    }
}

/// Two items of one row lie apart.
pub proof fn lemma_strip_items_apart(
    areas: Seq<u64>,
    start: int,
    end: int,
    rest: Rect,
    a: int,
    b: int,
)
    requires
        0 <= start <= a < b < end <= areas.len(),
        0 <= rest.w,
        0 <= rest.h,
    ensures
        strip_rect(areas, start, end, rest, a).apart_from(strip_rect(areas, start, end, rest, b)),
{
    let total = range_sum(areas, start, end);
    lemma_range_sum_sign(areas, start, end);
    let length = if rest.w >= rest.h {
        rest.h
    } else {
        rest.w
    };
    lemma_lengths_grow(areas, start, a + 1, b, length, total);
}

/// What packing gives for the items from `start` on.
pub open spec fn well_packed(areas: Seq<u64>, start: int, rest: Rect, rects: Seq<Rect>) -> bool {
    &&& rects.len() == areas.len() - start
    &&& forall|i: int| 0 <= i < rects.len() ==> rest.encloses(#[trigger] rects[i])
    &&& forall|i: int, j: int|
        0 <= i < j < rects.len() ==> (#[trigger] rects[i]).apart_from(#[trigger] rects[j])
    &&& forall|i: int|
        0 <= i < rects.len() ==> (#[trigger] rects[i]).area() <= areas[start + i] <= rects[i].area()
            + rects[i].w + rects[i].h
}

proof fn lemma_strip_packed(areas: Seq<u64>, start: int, end: int, rest: Rect)
    requires
        0 <= start < end <= areas.len(),
        0 <= rest.w,
        0 <= rest.h,
        range_sum(areas, start, end) <= rest.area(),
    ensures
        ({
            let strip = strip_rects(areas, start, end, rest);
            let left = strip_rest(areas, start, end, rest);
            &&& strip.len() == end - start
            &&& rest.encloses(left)
            &&& rest.area() - range_sum(areas, start, end) <= left.area()
            &&& forall|i: int|
                0 <= i < strip.len() ==> {
                    &&& rest.encloses(#[trigger] strip[i])
                    &&& (strip[i].x + strip[i].w <= left.x || strip[i].y + strip[i].h <= left.y)
                    &&& strip[i].area() <= areas[start + i] <= strip[i].area() + strip[i].w
                        + strip[i].h
                }
            &&& forall|i: int, j: int|
                0 <= i < j < strip.len() ==> (#[trigger] strip[i]).apart_from(#[trigger] strip[j])
        }),
{
    let strip = strip_rects(areas, start, end, rest);
    let left = strip_rest(areas, start, end, rest);
    lemma_strip_item(areas, start, end, rest, start);
    assert forall|i: int| 0 <= i < strip.len() implies {
        &&& rest.encloses(#[trigger] strip[i])
        &&& (strip[i].x + strip[i].w <= left.x || strip[i].y + strip[i].h <= left.y)
        &&& strip[i].area() <= areas[start + i] <= strip[i].area() + strip[i].w + strip[i].h
    } by {
        lemma_strip_item(areas, start, end, rest, start + i);
    }
    assert forall|i: int, j: int| 0 <= i < j < strip.len() implies (#[trigger] strip[i]).apart_from(
        #[trigger] strip[j],
    ) by {
        lemma_strip_items_apart(areas, start, end, rest, start + i, start + j);
    }
}

proof fn lemma_squarify(areas: Seq<u64>, start: int, end: int, rest: Rect)
    requires
        0 <= start <= end <= areas.len(),
        0 <= rest.w,
        0 <= rest.h,
        range_sum(areas, start, areas.len() as int) <= rest.area(),
    ensures
        well_packed(areas, start, rest, squarify(areas, start, end, rest)),
    decreases areas.len() - end,
{
    let count = areas.len() as int;
    let out = squarify(areas, start, end, rest);
    lemma_range_sum(areas, start, end, count);
    if end >= count {
        if start < end {
            lemma_strip_packed(areas, start, end, rest);
        }
    } else if start >= end || keeps_ratio(areas, start, end, row_side(rest)) {
        lemma_squarify(areas, start, end + 1, rest);
    } else {
        let strip = strip_rects(areas, start, end, rest);
        let left = strip_rest(areas, start, end, rest);
        let later = squarify(areas, end, end + 1, left);
        lemma_strip_packed(areas, start, end, rest);
        lemma_squarify(areas, end, end + 1, left);
        assert(out == strip + later);
        assert forall|i: int| 0 <= i < out.len() implies rest.encloses(#[trigger] out[i]) by {
            if i >= strip.len() {
                assert(left.encloses(later[i - strip.len()]));
            }
        }
        assert forall|i: int, j: int| 0 <= i < j < out.len() implies (#[trigger] out[i]).apart_from(
            #[trigger] out[j],
        ) by {
            if j >= strip.len() {
                assert(left.encloses(later[j - strip.len()]));
                if i >= strip.len() {
                    assert(later[i - strip.len()].apart_from(later[j - strip.len()]));
                } else {
                    assert(rest.encloses(strip[i]));
                }
            } else {
                assert(strip[i].apart_from(strip[j]));
            }
        }
        assert forall|i: int| 0 <= i < out.len() implies (#[trigger] out[i]).area() <= areas[start
            + i] <= out[i].area() + out[i].w + out[i].h by {
            if i >= strip.len() {
                assert(later[i - strip.len()].area() <= areas[end + (i - strip.len())]);
            } else {
                assert(rest.encloses(strip[i]));
            }
        }
    }
}

/// Packing places every item inside the bounds, no two of them
/// overlapping, each with an area that is at most its target area and
/// falls short of it by no more than its width plus its height.
pub proof fn lemma_packed(areas: Seq<u64>, bounds: Rect)
    requires
        0 <= bounds.w,
        0 <= bounds.h,
        range_sum(areas, 0, areas.len() as int) <= bounds.area(),
    ensures
        well_packed(areas, 0, bounds, packed(areas, bounds)),
{
    lemma_squarify(areas, 0, 0, bounds);
}

} // verus!
