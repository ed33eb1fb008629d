//! Points, axis-aligned envelopes and the distance bounds between them.
use vstd::prelude::*;

verus! {

/// A point of the plane with integer coordinates.
#[derive(Clone, Copy, Debug, PartialEq, Eq, Structural)]
pub struct Point {
    pub x: i32,
    pub y: i32,
}

/// An axis-aligned rectangle, given by its lower-left and upper-right corners.
#[derive(Clone, Copy, Debug, PartialEq, Eq, Structural)]
pub struct Envelope {
    pub lower: Point,
    pub upper: Point,
}

pub open spec fn sq(a: int) -> int {
    a * a
}

/// Squared euclidean distance between two points.
pub open spec fn dist2(p: Point, q: Point) -> int {
    sq(p.x - q.x) + sq(p.y - q.y)
}

/// Distance along one axis from `v` to the interval `[lo, hi]` (zero inside it).
pub open spec fn gap(lo: int, hi: int, v: int) -> int {
    if v < lo {
        lo - v
    } else if v > hi {
        v - hi
    } else {
        0
    }
}

/// Squared distance from `q` to the nearest point of the envelope.
pub open spec fn env_dist2(e: Envelope, q: Point) -> int {
    sq(gap(e.lower.x as int, e.upper.x as int, q.x as int)) + sq(
        gap(e.lower.y as int, e.upper.y as int, q.y as int),
    )
}

pub open spec fn valid_envelope(e: Envelope) -> bool {
    e.lower.x <= e.upper.x && e.lower.y <= e.upper.y
}

pub open spec fn env_contains(e: Envelope, p: Point) -> bool {
    e.lower.x <= p.x <= e.upper.x && e.lower.y <= p.y <= e.upper.y
}

/// Along one axis, the offset to the face that is closer to the query, as the
/// pair (closer, farther); on a tie the upper face counts as the closer one.
pub open spec fn near_far(lo: int, hi: int, v: int) -> (int, int) {
    let l = lo - v;
    let u = hi - v;
    if abs(l) < abs(u) {
        (l, u)
    } else {
        (u, l)
    }
}

pub open spec fn abs(a: int) -> int {
    if a < 0 {
        -a
    } else {
        a
    }
}

/// The min-max distance: for each axis, the squared distance to the farther
/// face on that axis and to the closer face on the other; the least of the two.
pub open spec fn min_max_spec(e: Envelope, q: Point) -> int {
    let (nx, fx) = near_far(e.lower.x as int, e.upper.x as int, q.x as int);
    let (ny, fy) = near_far(e.lower.y as int, e.upper.y as int, q.y as int);
    let along_x = sq(fx) + sq(ny);
    let along_y = sq(nx) + sq(fy);
    if along_y < along_x {
        along_y
    } else {
        along_x
    }
}

proof fn lemma_sq_mono(a: int, b: int)
    requires
        0 <= a <= b,
    ensures
        sq(a) <= sq(b),
{
    assert(a * a <= b * b) by (nonlinear_arith)
        requires
            0 <= a <= b,
    ;
}

proof fn lemma_sq_abs(a: int)
    ensures
        sq(a) == sq(abs(a)),
        sq(a) >= 0,
{
    assert(a * a == (-a) * (-a)) by (nonlinear_arith);
    assert(a * a >= 0) by (nonlinear_arith);
}

/// The envelope distance is a lower bound on the distance of every point inside.
pub proof fn lemma_env_dist_lower_bound(e: Envelope, p: Point, q: Point)
    requires
        env_contains(e, p),
    ensures
        0 <= env_dist2(e, q) <= dist2(p, q),
{
    let gx = gap(e.lower.x as int, e.upper.x as int, q.x as int);
    let gy = gap(e.lower.y as int, e.upper.y as int, q.y as int);
    lemma_sq_abs(p.x - q.x);
    lemma_sq_abs(p.y - q.y);
    lemma_sq_mono(gx, abs(p.x - q.x));
    lemma_sq_mono(gy, abs(p.y - q.y));
}

/// A point that lies on the closer face of one axis and inside the envelope is
/// no farther from `q` than the min-max distance along the other axis allows.
pub proof fn lemma_min_max_witness(e: Envelope, p: Point, q: Point, on_x: bool)
    requires
        env_contains(e, p),
        on_x ==> p.x - q.x == near_far(e.lower.x as int, e.upper.x as int, q.x as int).0,
        !on_x ==> p.y - q.y == near_far(e.lower.y as int, e.upper.y as int, q.y as int).0,
    ensures
        on_x ==> dist2(p, q) <= sq(near_far(e.lower.x as int, e.upper.x as int, q.x as int).0)
            + sq(near_far(e.lower.y as int, e.upper.y as int, q.y as int).1),
        !on_x ==> dist2(p, q) <= sq(near_far(e.lower.x as int, e.upper.x as int, q.x as int).1)
            + sq(near_far(e.lower.y as int, e.upper.y as int, q.y as int).0),
{
    let (nx, fx) = near_far(e.lower.x as int, e.upper.x as int, q.x as int);
    let (ny, fy) = near_far(e.lower.y as int, e.upper.y as int, q.y as int);
    lemma_sq_abs(p.x - q.x);
    lemma_sq_abs(p.y - q.y);
    lemma_sq_abs(fx);
    lemma_sq_abs(fy);
    lemma_sq_mono(abs(p.x - q.x), abs(fx));
    lemma_sq_mono(abs(p.y - q.y), abs(fy));
}

/// Squared distances between points fit well below the largest `u128`.
pub proof fn lemma_dist2_bound(p: Point, q: Point)
    ensures
        0 <= dist2(p, q) < 0x4_0000_0000_0000_0000,
{
    let dx = p.x - q.x;
    let dy = p.y - q.y;
    assert(dx * dx < 0x1_0000_0000_0000_0000 && dx * dx >= 0) by (nonlinear_arith)
        requires
            -0x1_0000_0000 < dx < 0x1_0000_0000,
    ;
    assert(dy * dy < 0x1_0000_0000_0000_0000 && dy * dy >= 0) by (nonlinear_arith)
        requires
            -0x1_0000_0000 < dy < 0x1_0000_0000,
    ;
}

/// Absolute difference of two coordinates; it fits in 32 bits.
fn abs_diff(a: i32, b: i32) -> (r: u64)
    ensures
        r == abs(a - b),
        r < 0x1_0000_0000,
{
    if a >= b {
        (a as i64 - b as i64) as u64
    } else {
        (b as i64 - a as i64) as u64
    }
}

fn square(a: u64) -> (r: u128)
    requires
        a < 0x1_0000_0000,
    ensures
        r == sq(a as int),
        r < 0x1_0000_0000_0000_0000,
{
    assert(a * a < 0x1_0000_0000_0000_0000) by (nonlinear_arith)
        requires
            a < 0x1_0000_0000,
    ;
    (a as u128) * (a as u128)
}

impl Point {
    pub fn new(x: i32, y: i32) -> (r: Point)
        ensures
            r.x == x,
            r.y == y,
    {
        Point { x, y }
    }

    /// Squared euclidean distance to `q`.
    pub fn distance_2(&self, q: &Point) -> (r: u128)
        ensures
            r == dist2(*self, *q),
    {
        let dx = abs_diff(self.x, q.x);
        let dy = abs_diff(self.y, q.y);
        proof {
            lemma_sq_abs(self.x - q.x);
            lemma_sq_abs(self.y - q.y);
        }
        square(dx) + square(dy)
    }

    /// The squared distance to `q` when it is at most `max_distance_2`.
    pub fn distance_2_if_less_or_equal(&self, q: &Point, max_distance_2: u128) -> (r: Option<u128>)
        ensures
            r == (if dist2(*self, *q) <= max_distance_2 {
                Some(dist2(*self, *q) as u128)
            } else {
                None
            }),
    {
        let d = self.distance_2(q);
        if d <= max_distance_2 {
            Some(d)
        } else {
            None
        }
    }

    /// The envelope that holds this point alone.
    pub fn envelope(&self) -> (r: Envelope)
        ensures
            r.lower == *self,
            r.upper == *self,
    {
        Envelope { lower: *self, upper: *self }
    }
}

/// Offset along one axis from `v` to the interval `[lo, hi]`.
fn axis_gap(lo: i32, hi: i32, v: i32) -> (r: u64)
    ensures
        r == gap(lo as int, hi as int, v as int),
        r < 0x1_0000_0000,
{
    if v < lo {
        abs_diff(lo, v)
    } else if v > hi {
        abs_diff(v, hi)
    } else {
        0
    }
}

impl Envelope {
    /// The envelope spanned by two corners; each coordinate is ordered.
    pub fn from_corners(a: Point, b: Point) -> (r: Envelope)
        ensures
            valid_envelope(r),
            r.lower.x == if a.x <= b.x { a.x } else { b.x },
            r.lower.y == if a.y <= b.y { a.y } else { b.y },
            r.upper.x == if a.x <= b.x { b.x } else { a.x },
            r.upper.y == if a.y <= b.y { b.y } else { a.y },
    {
        let (lx, ux) = if a.x <= b.x { (a.x, b.x) } else { (b.x, a.x) };
        let (ly, uy) = if a.y <= b.y { (a.y, b.y) } else { (b.y, a.y) };
        Envelope { lower: Point { x: lx, y: ly }, upper: Point { x: ux, y: uy } }
    }

    /// The smallest envelope that holds both `self` and `other`.
    pub fn merged(&self, other: &Envelope) -> (r: Envelope)
        ensures
            r.lower.x == if self.lower.x <= other.lower.x { self.lower.x } else { other.lower.x },
            r.lower.y == if self.lower.y <= other.lower.y { self.lower.y } else { other.lower.y },
            r.upper.x == if self.upper.x >= other.upper.x { self.upper.x } else { other.upper.x },
            r.upper.y == if self.upper.y >= other.upper.y { self.upper.y } else { other.upper.y },
    {
        Envelope {
            lower: Point {
                x: if self.lower.x <= other.lower.x { self.lower.x } else { other.lower.x },
                y: if self.lower.y <= other.lower.y { self.lower.y } else { other.lower.y },
            },
            upper: Point {
                x: if self.upper.x >= other.upper.x { self.upper.x } else { other.upper.x },
                y: if self.upper.y >= other.upper.y { self.upper.y } else { other.upper.y },
            },
        }
    }

    /// Whether `p` lies inside the envelope or on its border.
    pub fn contains_point(&self, p: &Point) -> (r: bool)
        ensures
            r == env_contains(*self, *p),
    {
        self.lower.x <= p.x && p.x <= self.upper.x && self.lower.y <= p.y && p.y <= self.upper.y
    }

    /// Squared distance from `q` to the nearest point of the envelope; zero
    /// when `q` lies inside.
    pub fn distance_2(&self, q: &Point) -> (r: u128)
        ensures
            r == env_dist2(*self, *q),
    {
        let gx = axis_gap(self.lower.x, self.upper.x, q.x);
        let gy = axis_gap(self.lower.y, self.upper.y, q.y);
        square(gx) + square(gy)
    }
}

} // verus!
