//! Integer geometry: axes, closed intervals and axis-aligned rectangles.

use vstd::prelude::*;

verus! {

/// One of the two coordinate axes.
#[derive(Clone, Copy, Debug, PartialEq, Eq, Structural)]
pub enum Axis {
    X,
    Y,
}

impl Axis {
    /// The other axis.
    pub open spec fn other(self) -> Axis {
        match self {
            Axis::X => Axis::Y,
            Axis::Y => Axis::X,
        }
    }

    pub fn next(&self) -> (r: Axis)
        ensures
            r == self.other(),
    {
        match self {
            Axis::X => Axis::Y,
            Axis::Y => Axis::X,
        }
    }

    pub fn is_xaxis(&self) -> (r: bool)
        ensures
            r == (*self == Axis::X),
    {
        match self {
            Axis::X => true,
            Axis::Y => false,
        }
    }

    pub fn is_equal_to(&self, other: Axis) -> (r: bool)
        ensures
            r == (*self == other),
    {
        self.is_xaxis() == other.is_xaxis()
    }
}

/// A closed interval `[start, end]` on one axis.
#[derive(Clone, Copy, Debug, PartialEq, Eq, Structural)]
pub struct Range {
    pub start: i64,
    pub end: i64,
}

impl Range {
    /// The interval is not degenerate.
    pub open spec fn valid(self) -> bool {
        self.start <= self.end
    }

    /// The two closed intervals share a point.
    pub open spec fn meets(self, other: Range) -> bool {
        !(self.end < other.start || other.end < self.start)
    }

    /// `pos` lies in the closed interval.
    pub open spec fn has(self, pos: int) -> bool {
        self.start <= pos <= self.end
    }

    /// `other` lies inside this interval.
    pub open spec fn encloses(self, other: Range) -> bool {
        self.start <= other.start && other.end <= self.end
    }

    pub fn new(start: i64, end: i64) -> (r: Range)
        ensures
            r == (Range { start, end }),
    {
        Range { start, end }
    }

    pub fn is_valid(&self) -> (r: bool)
        ensures
            r == self.valid(),
    {
        self.start <= self.end
    }

    pub fn contains(&self, pos: i64) -> (r: bool)
        ensures
            r == self.has(pos as int),
    {
        self.start <= pos && pos <= self.end
    }

    pub fn contains_range(&self, other: &Range) -> (r: bool)
        ensures
            r == self.encloses(*other),
    {
        self.start <= other.start && other.end <= self.end
    }

    pub fn intersects(&self, other: &Range) -> (r: bool)
        ensures
            r == self.meets(*other),
    {
        range_intersects(self.start, self.end, other.start, other.end)
    }

    /// Widens the interval just enough to enclose `other`.
    pub fn grow_to_fit(&mut self, other: &Range)
        ensures
            final(self).start == (if other.start < old(self).start {
                other.start
            } else {
                old(self).start
            }),
            final(self).end == (if other.end > old(self).end {
                other.end
            } else {
                old(self).end
            }),
    {
        if other.start < self.start {
            self.start = other.start;
        }
        if other.end > self.end {
            self.end = other.end;
        }
    }
}

/// Calls `axgeom::Range::intersects` on the intervals `[a0, a1]` and
/// `[b0, b1]`. Trusted: the result is the closed-interval test, true unless
/// one interval ends strictly before the other starts.
#[verifier::external_body]
fn range_intersects(a0: i64, a1: i64, b0: i64, b1: i64) -> (r: bool)
    ensures
        r == !(a1 < b0 || b1 < a0),
{
    axgeom::Range::new(a0, a1).intersects(&axgeom::Range::new(b0, b1))
}

/// An axis-aligned rectangle, the product of two closed intervals.
#[derive(Clone, Copy, Debug, PartialEq, Eq, Structural)]
pub struct Rect {
    pub x: Range,
    pub y: Range,
}

impl Rect {
    /// The interval of the rectangle along `axis`.
    pub open spec fn range(self, axis: Axis) -> Range {
        match axis {
            Axis::X => self.x,
            Axis::Y => self.y,
        }
    }

    pub open spec fn valid(self) -> bool {
        self.x.valid() && self.y.valid()
    }

    /// The two rectangles share a point.
    pub open spec fn meets(self, other: Rect) -> bool {
        self.x.meets(other.x) && self.y.meets(other.y)
    }

    /// `other` lies inside this rectangle.
    pub open spec fn encloses(self, other: Rect) -> bool {
        self.x.encloses(other.x) && self.y.encloses(other.y)
    }

    pub fn new(xstart: i64, xend: i64, ystart: i64, yend: i64) -> (r: Rect)
        ensures
            r == (Rect { x: Range { start: xstart, end: xend }, y: Range { start: ystart, end: yend } }),
    {
        Rect { x: Range { start: xstart, end: xend }, y: Range { start: ystart, end: yend } }
    }

    pub fn get_range(&self, axis: Axis) -> (r: &Range)
        ensures
            *r == self.range(axis),
    {
        match axis {
            Axis::X => &self.x,
            Axis::Y => &self.y,
        }
    }

    pub fn is_valid(&self) -> (r: bool)
        ensures
            r == self.valid(),
    {
        self.x.is_valid() && self.y.is_valid()
    }

    pub fn intersects_rect(&self, other: &Rect) -> (r: bool)
        ensures
            r == self.meets(*other),
    {
        other.x.intersects(&self.x) && other.y.intersects(&self.y)
    }

    pub fn contains_rect(&self, other: &Rect) -> (r: bool)
        ensures
            r == self.encloses(*other),
    {
        self.x.contains_range(&other.x) && self.y.contains_range(&other.y)
    }
}

/// A point of the plane, or a direction.
#[derive(Clone, Copy, Debug, PartialEq, Eq, Structural)]
pub struct Vec2 {
    pub x: i64,
    pub y: i64,
}

/// Shorthand constructor of a [`Vec2`].
pub fn vec2(x: i64, y: i64) -> (r: Vec2)
    ensures
        r == (Vec2 { x, y }),
{
    Vec2 { x, y }
}

impl Vec2 {
    /// The coordinate along `axis`.
    pub open spec fn along(self, axis: Axis) -> i64 {
        match axis {
            Axis::X => self.x,
            Axis::Y => self.y,
        }
    }

    pub fn get_axis(&self, axis: Axis) -> (r: i64)
        ensures
            r == self.along(axis),
    {
        match axis {
            Axis::X => self.x,
            Axis::Y => self.y,
        }
    }

    /// Both coordinates are small enough for squared distances.
    pub open spec fn in_reach(self) -> bool {
        coord_in_reach(self.x as int) && coord_in_reach(self.y as int)
    }
}

/// The greatest absolute value of a coordinate for which squared distances
/// are computed: with it, the sum of two squared differences fits in 128
/// bits.
pub const COORD_LIMIT: i64 = 0x3FFF_FFFF_FFFF_FFFF;

/// The coordinate is small enough for squared distances.
pub open spec fn coord_in_reach(v: int) -> bool {
    -COORD_LIMIT <= v <= COORD_LIMIT
}

/// `v` if it lies in `lo..=hi`, else the end of the interval nearer to it.
pub open spec fn clamped(v: int, lo: int, hi: int) -> int {
    if v < lo {
        lo
    } else if v > hi {
        hi
    } else {
        v
    }
}

impl Rect {
    /// All four coordinates are small enough for squared distances.
    pub open spec fn in_reach(self) -> bool {
        &&& coord_in_reach(self.x.start as int)
        &&& coord_in_reach(self.x.end as int)
        &&& coord_in_reach(self.y.start as int)
        &&& coord_in_reach(self.y.end as int)
    }

    /// The square of the distance from `p` to the nearest point of the
    /// rectangle: zero for a point in it.
    pub open spec fn dist2(self, p: Vec2) -> int {
        let dx = clamped(p.x as int, self.x.start as int, self.x.end as int) - p.x;
        let dy = clamped(p.y as int, self.y.start as int, self.y.end as int) - p.y;
        dx * dx + dy * dy
    }

    /// `p` lies in the rectangle and not on its border.
    pub open spec fn has_inside(self, p: Vec2) -> bool {
        self.x.start < p.x < self.x.end && self.y.start < p.y < self.y.end
    }

    /// The squared distance from `point` to the rectangle, or `None` for a
    /// point strictly inside it.
    pub fn distance_squared_to_point(&self, point: Vec2) -> (r: Option<i128>)
        requires
            self.valid(),
            self.in_reach(),
            point.in_reach(),
        ensures
            r == (if self.has_inside(point) {
                None
            } else {
                Some(self.dist2(point) as i128)
            }),
            0 <= self.dist2(point) <= i128::MAX,
    {
        proof {
            lemma_dist2_fits(*self, point);
        }
        rect_distance_squared(
            self.x.start,
            self.x.end,
            self.y.start,
            self.y.end,
            point.x,
            point.y,
        )
    }

    /// The squared distance from `point` to the rectangle, zero for a point
    /// in it.
    pub fn distance_squared(&self, point: Vec2) -> (r: i128)
        requires
            self.valid(),
            self.in_reach(),
            point.in_reach(),
        ensures
            r == self.dist2(point),
            r >= 0,
    {
        match self.distance_squared_to_point(point) {
            Some(d) => d,
            None => {
                proof {
                    let dx = clamped(point.x as int, self.x.start as int, self.x.end as int)
                        - point.x;
                    let dy = clamped(point.y as int, self.y.start as int, self.y.end as int)
                        - point.y;
                    assert(dx == 0 && dy == 0);
                    assert(dx * dx + dy * dy == 0) by (nonlinear_arith)
                        requires
                            dx == 0,
                            dy == 0,
                    ;
                }
                0
            },
        }
    }
}

/// With coordinates in reach a squared distance fits in 128 bits.
pub proof fn lemma_dist2_fits(rect: Rect, p: Vec2)
    requires
        rect.in_reach(),
        p.in_reach(),
    ensures
        0 <= rect.dist2(p) <= i128::MAX,
{
    let dx = clamped(p.x as int, rect.x.start as int, rect.x.end as int) - p.x;
    let dy = clamped(p.y as int, rect.y.start as int, rect.y.end as int) - p.y;
    let m: int = 2 * COORD_LIMIT;
    assert(-m <= dx <= m);
    assert(-m <= dy <= m);
    assert(0 <= dx * dx <= m * m) by (nonlinear_arith)
        requires
            -m <= dx <= m,
    ;
    assert(0 <= dy * dy <= m * m) by (nonlinear_arith)
        requires
            -m <= dy <= m,
    ;
    assert(m * m + m * m <= i128::MAX) by (nonlinear_arith)
        requires
            m == 2 * 0x3FFF_FFFF_FFFF_FFFF,
    ;
}

/// Calls `axgeom::Rect::distance_squared_to_point` on the rectangle
/// `[x0, x1] x [y0, y1]` and the point `(px, py)`, all widened to 128 bits.
/// Trusted: with each coordinate of the point clamped to the rectangle's
/// interval, the result is `None` if both clamped coordinates lie strictly
/// between the interval's ends, else the sum of the squares of what the
/// clamping moved the point by.
#[verifier::external_body]
fn rect_distance_squared(x0: i64, x1: i64, y0: i64, y1: i64, px: i64, py: i64) -> (r: Option<i128>)
    requires
        x0 <= x1,
        y0 <= y1,
        (Rect { x: Range { start: x0, end: x1 }, y: Range { start: y0, end: y1 } }).in_reach(),
        (Vec2 { x: px, y: py }).in_reach(),
    ensures
        r == (if x0 < px < x1 && y0 < py < y1 {
            None
        } else {
            Some(
                ((clamped(px as int, x0 as int, x1 as int) - px) * (clamped(
                    px as int,
                    x0 as int,
                    x1 as int,
                ) - px) + (clamped(py as int, y0 as int, y1 as int) - py) * (clamped(
                    py as int,
                    y0 as int,
                    y1 as int,
                ) - py)) as i128,
            )
        }),
{
    axgeom::Rect::new(i128::from(x0), i128::from(x1), i128::from(y0), i128::from(y1))
        .distance_squared_to_point(axgeom::vec2(i128::from(px), i128::from(py)))
}

/// A ray: the points `point + t * dir` for `t` from zero on.
#[derive(Clone, Copy, Debug, PartialEq, Eq, Structural)]
pub struct Ray {
    pub point: Vec2,
    pub dir: Vec2,
}

/// Shorthand constructor of a [`Ray`].
pub fn ray(point: Vec2, dir: Vec2) -> (r: Ray)
    ensures
        r == (Ray { point, dir }),
{
    Ray { point, dir }
}

/// The greatest absolute value of a coordinate for which rays are cast:
/// with it, no product or sum in a cast leaves 64 bits.
pub const RAY_LIMIT: i64 = 0x4000_0000;

/// The coordinate is small enough for casting rays.
pub open spec fn coord_in_cast_reach(v: int) -> bool {
    -RAY_LIMIT <= v <= RAY_LIMIT
}

impl Ray {
    /// Origin and direction are small enough for casting.
    pub open spec fn in_reach(self) -> bool {
        &&& coord_in_cast_reach(self.point.x as int)
        &&& coord_in_cast_reach(self.point.y as int)
        &&& coord_in_cast_reach(self.dir.x as int)
        &&& coord_in_cast_reach(self.dir.y as int)
    }

    /// The origin lies on one side of the rectangle along `axis` and the
    /// ray does not move toward the rectangle along that axis.
    pub open spec fn leads_away(self, rect: Rect, axis: Axis) -> bool {
        ||| self.point.along(axis) < rect.range(axis).start && self.dir.along(axis) <= 0
        ||| self.point.along(axis) > rect.range(axis).end && self.dir.along(axis) >= 0
    }

    /// Where along the ray it first meets the rectangle, in whole steps,
    /// or `None` if it does not: no meeting where the ray leads away from
    /// the rectangle, a meeting at zero where the origin lies in the
    /// rectangle, and else what [`ray_cast`] states.
    pub open spec fn cast(self, rect: Rect) -> Option<i64> {
        if self.leads_away(rect, Axis::X) || self.leads_away(rect, Axis::Y) {
            None
        } else if rect.x.has(self.point.x as int) && rect.y.has(self.point.y as int) {
            Some(0i64)
        } else {
            ray_cast(
                self.point.x,
                self.point.y,
                self.dir.x,
                self.dir.y,
                rect.x.start,
                rect.x.end,
                rect.y.start,
                rect.y.end,
            )
        }
    }

    /// Casts the ray to the rectangle.
    pub fn cast_to_rect(&self, rect: &Rect) -> (r: Option<i64>)
        requires
            rect.valid(),
            rect.in_cast_reach(),
            self.in_reach(),
        ensures
            r == self.cast(*rect),
            r.is_some() ==> r.unwrap() >= 0,
    {
        cast_ray_to_rect(
            self.point.x,
            self.point.y,
            self.dir.x,
            self.dir.y,
            rect.x.start,
            rect.x.end,
            rect.y.start,
            rect.y.end,
        )
    }
}

impl Rect {
    /// All four coordinates are small enough for casting rays.
    pub open spec fn in_cast_reach(self) -> bool {
        &&& coord_in_cast_reach(self.x.start as int)
        &&& coord_in_cast_reach(self.x.end as int)
        &&& coord_in_cast_reach(self.y.start as int)
        &&& coord_in_cast_reach(self.y.end as int)
    }
}

/// The quotient of `a` by `b`, rounded toward zero, as the division of
/// machine integers gives it; zero where `b` is zero.
pub open spec fn quot(a: int, b: int) -> int {
    if b == 0 {
        0
    } else if a >= 0 && b > 0 {
        a / b
    } else if a < 0 && b < 0 {
        (-a) / (-b)
    } else if a >= 0 {
        -(a / (-b))
    } else {
        -((-a) / b)
    }
}

/// After how many whole steps a point that starts at `p` and moves by
/// `d` per step reaches `line`, if it moves at all and takes at least
/// one whole step.
pub open spec fn line_cast(p: int, d: int, line: int) -> Option<int> {
    if d != 0 && quot(line - p, d) > 0 {
        Some(quot(line - p, d))
    } else {
        None
    }
}

/// The step `t`, if a point that starts at `p` and moves by `d` per step
/// stands within `lo..=hi` after `t` steps.
pub open spec fn kept_if_within(p: int, d: int, t: int, lo: int, hi: int) -> Option<i64> {
    if lo <= p + d * t <= hi {
        Some(t as i64)
    } else {
        None
    }
}

/// What `axgeom::Ray::cast_to_rect` computes for the ray from `(px, py)`
/// in direction `(dx, dy)` and a rectangle `[x0, x1] x [y0, y1]` that does
/// not hold the origin. Along each axis the ray is cast to the side of
/// the rectangle that it moves toward. Of the two sides the one reached
/// later counts, the side along y where both are reached at once; where
/// only one is reached, that one counts. The rectangle is met at that
/// step if the ray then stands within the rectangle along the other axis.
pub open spec fn ray_cast(
    px: i64,
    py: i64,
    dx: i64,
    dy: i64,
    x0: i64,
    x1: i64,
    y0: i64,
    y1: i64,
) -> Option<i64> {
    let tx = line_cast(
        px as int,
        dx as int,
        if dx >= 0 {
            x0 as int
        } else {
            x1 as int
        },
    );
    let ty = line_cast(
        py as int,
        dy as int,
        if dy >= 0 {
            y0 as int
        } else {
            y1 as int
        },
    );
    match (tx, ty) {
        (Some(a), Some(b)) => if a > b {
            kept_if_within(py as int, dy as int, a, y0 as int, y1 as int)
        } else {
            kept_if_within(px as int, dx as int, b, x0 as int, x1 as int)
        },
        (Some(a), None) => kept_if_within(py as int, dy as int, a, y0 as int, y1 as int),
        (None, Some(b)) => kept_if_within(px as int, dx as int, b, x0 as int, x1 as int),
        (None, None) => None,
    }
}

/// A quotient lies between zero and what is divided.
pub proof fn lemma_quot_bounded(a: int, b: int)
    ensures
        a >= 0 ==> -a <= quot(a, b) <= a,
        a <= 0 ==> a <= quot(a, b) <= -a,
{
    if b > 0 {
        if a >= 0 {
            vstd::arithmetic::div_mod::lemma_div_pos_is_pos(a, b);
            vstd::arithmetic::div_mod::lemma_div_nonincreasing(a, b);
        } else {
            vstd::arithmetic::div_mod::lemma_div_pos_is_pos(-a, b);
            vstd::arithmetic::div_mod::lemma_div_nonincreasing(-a, b);
        }
    } else if b < 0 {
        if a >= 0 {
            vstd::arithmetic::div_mod::lemma_div_pos_is_pos(a, -b);
            vstd::arithmetic::div_mod::lemma_div_nonincreasing(a, -b);
        } else {
            vstd::arithmetic::div_mod::lemma_div_pos_is_pos(-a, -b);
            vstd::arithmetic::div_mod::lemma_div_nonincreasing(-a, -b);
        }
    }
}

/// A point that moves toward a line and a side that lies beyond the line
/// takes no fewer whole steps to the side than to the line.
pub proof fn lemma_line_before_side(p: int, d: int, line: int, side: int)
    requires
        (p < line < side && d > 0) || (p >= line > side && d < 0),
    ensures
        quot(side - p, d) >= quot(line - p, d),
{
    if d > 0 {
        vstd::arithmetic::div_mod::lemma_div_is_ordered(line - p, side - p, d);
    } else {
        vstd::arithmetic::div_mod::lemma_div_is_ordered(p - line, p - side, -d);
    }
}

/// A point that moves toward a line and stands, after `t` steps, in an
/// interval that lies beyond the line has taken more whole steps than it
/// takes to the line.
pub proof fn lemma_line_before_inside(p: int, d: int, line: int, lo: int, hi: int, t: int)
    requires
        (p < line < lo && d > 0) || (p >= line > hi && d < 0),
        lo <= p + d * t <= hi,
    ensures
        t > quot(line - p, d),
{
    if d > 0 {
        let n = line - p;
        vstd::arithmetic::div_mod::lemma_fundamental_div_mod(n, d);
        vstd::arithmetic::div_mod::lemma_mod_bound(n, d);
        assert(t > n / d) by (nonlinear_arith)
            requires
                d > 0,
                d * t > n,
                n == d * (n / d) + (n % d),
                0 <= n % d,
        ;
    } else {
        let n = p - line;
        let e = -d;
        vstd::arithmetic::div_mod::lemma_fundamental_div_mod(n, e);
        vstd::arithmetic::div_mod::lemma_mod_bound(n, e);
        assert(e * t > n) by (nonlinear_arith)
            requires
                e == -d,
                p + d * t <= hi,
                hi < line,
                n == p - line,
        ;
        assert(t > n / e) by (nonlinear_arith)
            requires
                e > 0,
                e * t > n,
                n == e * (n / e) + (n % e),
                0 <= n % e,
        ;
    }
}

impl Ray {
    /// A ray that moves toward a line along `axis` meets a rectangle
    /// that lies beyond the line no earlier than it reaches the line.
    pub proof fn lemma_cast_not_before_line(self, rect: Rect, axis: Axis, line: int)
        requires
            self.in_reach(),
            rect.valid(),
            rect.in_cast_reach(),
            self.cast(rect) is Some,
            (self.point.along(axis) < line < rect.range(axis).start && self.dir.along(axis) > 0)
                || (self.point.along(axis) >= line > rect.range(axis).end && self.dir.along(axis)
                < 0),
        ensures
            self.cast(rect)->0 >= quot(
                line - self.point.along(axis),
                self.dir.along(axis) as int,
            ),
    {
        let px = self.point.x as int;
        let py = self.point.y as int;
        let dx = self.dir.x as int;
        let dy = self.dir.y as int;
        let sx = if dx >= 0 {
            rect.x.start as int
        } else {
            rect.x.end as int
        };
        let sy = if dy >= 0 {
            rect.y.start as int
        } else {
            rect.y.end as int
        };
        let tx = line_cast(px, dx, sx);
        let ty = line_cast(py, dy, sy);
        lemma_quot_bounded(sx - px, dx);
        lemma_quot_bounded(sy - py, dy);
        match axis {
            Axis::X => {
                lemma_line_before_side(px, dx, line, sx);
                let t = self.cast(rect)->0 as int;
                if dx * t + px >= rect.x.start && dx * t + px <= rect.x.end {
                    lemma_line_before_inside(px, dx, line, rect.x.start as int, rect.x.end as int, t);
                }
            },
            Axis::Y => {
                lemma_line_before_side(py, dy, line, sy);
                let t = self.cast(rect)->0 as int;
                if dy * t + py >= rect.y.start && dy * t + py <= rect.y.end {
                    lemma_line_before_inside(py, dy, line, rect.y.start as int, rect.y.end as int, t);
                }
            },
        }
    }
}

/// The whole steps that a point takes over the distance `far` at `speed`
/// per step.
pub fn whole_steps(far: i64, speed: i64) -> (r: i64)
    requires
        far >= 0,
        speed > 0,
    ensures
        r == quot(far as int, speed as int),
        r == quot(-far, -speed),
{
    far / speed
}

/// Calls `axgeom::Ray::cast_to_rect`. Trusted, as the source shows it:
/// there is no hit where the origin lies before the rectangle along an
/// axis and the direction does not point forward along it, nor where the
/// origin lies beyond the rectangle and the direction does not point
/// backward; a rectangle that contains the origin is hit at zero; in
/// every other case the result is what [`ray_cast`] states, with the
/// source's integer division and its closed test of a coordinate against
/// an interval; and a hit is never negative. Within the bounds demanded
/// no step of that computation leaves 64 bits.
#[verifier::external_body]
fn cast_ray_to_rect(px: i64, py: i64, dx: i64, dy: i64, x0: i64, x1: i64, y0: i64, y1: i64) -> (r:
    Option<i64>)
    requires
        x0 <= x1,
        y0 <= y1,
        (Rect { x: Range { start: x0, end: x1 }, y: Range { start: y0, end: y1 } }).in_cast_reach(),
        (Ray { point: Vec2 { x: px, y: py }, dir: Vec2 { x: dx, y: dy } }).in_reach(),
    ensures
        r == (if (px < x0 && dx <= 0) || (px > x1 && dx >= 0) || (py < y0 && dy <= 0) || (py > y1
            && dy >= 0) {
            None
        } else if x0 <= px <= x1 && y0 <= py <= y1 {
            Some(0i64)
        } else {
            ray_cast(px, py, dx, dy, x0, x1, y0, y1)
        }),
        r.is_some() ==> r.unwrap() >= 0,
{
    let ray = axgeom::Ray { point: axgeom::vec2(px, py), dir: axgeom::vec2(dx, dy) };
    match ray.cast_to_rect(&axgeom::Rect::new(x0, x1, y0, y1)) {
        axgeom::CastResult::Hit(t) => Some(t),
        axgeom::CastResult::NoHit => None,
    }
}

/// Shorthand constructor of a [`Rect`].
pub fn rect(xstart: i64, xend: i64, ystart: i64, yend: i64) -> (r: Rect)
    ensures
        r == (Rect { x: Range { start: xstart, end: xend }, y: Range { start: ystart, end: yend } }),
{
    Rect::new(xstart, xend, ystart, yend)
}

} // verus!
