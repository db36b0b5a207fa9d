//! Rectangles in fixed-point units, and proportional shares of a length or
//! an area.
//!
//! All lengths are whole numbers of units, [`UNITS_PER_PIXEL`] to the pixel.
//! Divisions round down, so a share never exceeds what it is a share of.

use vstd::prelude::*;

verus! {

/// Fixed-point resolution: this many units make one pixel.
pub const UNITS_PER_PIXEL: i32 = 1000;

/// An axis-aligned rectangle over the integers: the mathematical value of a
/// [`LayoutRect`].
pub ghost struct Rect {
    pub x: int,
    pub y: int,
    pub w: int,
    pub h: int,
}

/// An axis-aligned rectangle in units: its corner of least coordinates, its
/// width and its height.
#[derive(Debug, Clone, Copy)]
pub struct LayoutRect {
    pub x: i32,
    pub y: i32,
    pub w: i32,
    pub h: i32,
}

impl View for LayoutRect {
    type V = Rect;

    open spec fn view(&self) -> Rect {
        Rect { x: self.x as int, y: self.y as int, w: self.w as int, h: self.h as int }
    }
}

/// `v`, or zero where `v` is negative.
pub open spec fn at_least_zero(v: int) -> int {
    if v < 0 {
        0
    } else {
        v
    }
}

impl Rect {
    /// Width times height; zero where either is negative.
    pub open spec fn area(self) -> int {
        at_least_zero(self.w) * at_least_zero(self.h)
    }

    /// The smaller of width and height.
    pub open spec fn shortest_side(self) -> int {
        if self.w <= self.h {
            self.w
        } else {
            self.h
        }
    }

    /// The rectangle with `padding` taken off on all four sides; width and
    /// height stop at zero.
    pub open spec fn shrink(self, padding: int) -> Rect {
        Rect {
            x: self.x + padding,
            y: self.y + padding,
            w: at_least_zero(self.w - 2 * padding),
            h: at_least_zero(self.h - 2 * padding),
        }
    }

    /// `inner` lies within this rectangle.
    pub open spec fn encloses(self, inner: Rect) -> bool {
        &&& inner.w >= 0
        &&& inner.h >= 0
        &&& self.x <= inner.x
        &&& self.y <= inner.y
        &&& inner.x + inner.w <= self.x + self.w
        &&& inner.y + inner.h <= self.y + self.h
    }

    /// The two rectangles lie side by side or one above the other: they
    /// share no interior point.
    pub open spec fn apart_from(self, other: Rect) -> bool {
        ||| self.x + self.w <= other.x
        ||| other.x + other.w <= self.x
        ||| self.y + self.h <= other.y
        ||| other.y + other.h <= self.y
    }

    /// Neither side is negative, and the far edges are within `i32`.
    pub open spec fn representable(self) -> bool {
        &&& 0 <= self.w
        &&& 0 <= self.h
        &&& i32::MIN <= self.x
        &&& i32::MIN <= self.y
        &&& self.x + self.w <= i32::MAX
        &&& self.y + self.h <= i32::MAX
    }
}

impl LayoutRect {
    /// The rectangle with corner `(x, y)`, width `w` and height `h`.
    pub fn new(x: i32, y: i32, w: i32, h: i32) -> (rect: LayoutRect)
        ensures
            rect == (LayoutRect { x, y, w, h }),
    {
        LayoutRect { x, y, w, h }
    }

    /// Width times height; zero where either is negative.
    pub fn area(self) -> (area: u64)
        ensures
            area == self@.area(),
            area <= 0x3fff_ffff_0000_0001,
    {
        let w: u64 = if self.w > 0 {
            self.w as u64
        } else {
            0
        };
        let h: u64 = if self.h > 0 {
            self.h as u64
        } else {
            0
        };
        assert(w * h <= 0x7fff_ffff * 0x7fff_ffff) by (nonlinear_arith)
            requires
                w <= 0x7fff_ffff,
                h <= 0x7fff_ffff,
        ;
        w * h
    }

    /// The smaller of width and height.
    pub fn shortest_side(self) -> (side: i32)
        ensures
            side == self@.shortest_side(),
    {
        if self.w <= self.h {
            self.w
        } else {
            self.h
        }
    }

    /// The rectangle with `padding` taken off on all four sides; width and
    /// height stop at zero.
    pub fn shrink(self, padding: i32) -> (inner: LayoutRect)
        requires
            0 <= padding,
            self.x + padding <= i32::MAX,
            self.y + padding <= i32::MAX,
        ensures
            inner@ == self@.shrink(padding as int),
    {
        let doubled: i64 = 2 * (padding as i64);
        let w: i64 = self.w as i64 - doubled;
        let h: i64 = self.h as i64 - doubled;
        LayoutRect {
            x: self.x + padding,
            y: self.y + padding,
            w: if w > 0 {
                w as i32
            } else {
                0
            },
            h: if h > 0 {
                h as i32
            } else {
                0
            },
        }
    }
}

/// The area of a rectangle in units is bounded.
pub proof fn lemma_area_limit(rect: LayoutRect)
    ensures
        0 <= rect@.area() <= 0x3fff_ffff_0000_0001,
{
    let w = at_least_zero(rect.w as int);
    let h = at_least_zero(rect.h as int);
    assert(0 <= w * h <= 0x7fff_ffff * 0x7fff_ffff) by (nonlinear_arith)
        requires
            0 <= w <= 0x7fff_ffff,
            0 <= h <= 0x7fff_ffff,
    ;
}

/// The part of `amount` that falls to `weight` out of `total`, rounded down;
/// zero where `total` is zero.
pub open spec fn share(amount: int, weight: int, total: int) -> int {
    if total > 0 {
        amount * weight / total
    } else {
        0
    }
}

/// A share is between zero and the amount, and `total` shares of `weight`
/// do not exceed `weight` amounts.
pub proof fn lemma_share(amount: int, weight: int, total: int)
    requires
        0 <= amount,
        0 <= weight <= total,
    ensures
        0 <= share(amount, weight, total) <= amount,
        share(amount, weight, total) * total <= amount * weight,
        total > 0 ==> amount * weight < (share(amount, weight, total) + 1) * total,
{
    if total > 0 {
        let p = amount * weight;
        assert(0 <= p <= amount * total) by (nonlinear_arith)
            requires
                0 <= amount,
                0 <= weight <= total,
                p == amount * weight,
        ;
        let q = p / total;
        assert(q * total <= p < (q + 1) * total && 0 <= q) by (nonlinear_arith)
            requires
                q == p / total,
                total > 0,
                p >= 0,
        ;
        assert(q <= amount) by (nonlinear_arith)
            requires
                q * total <= p,
                p <= amount * total,
                total > 0,
        ;
    }
}

} // verus!
