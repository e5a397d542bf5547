//! Planar rigid transforms in fixed-point arithmetic.
//!
//! Lengths are integers (millimetres). A rotation is held as its cosine and
//! sine scaled by `ROT_UNIT`, so that the identity and a half turn are exact.
use vstd::prelude::*;

verus! {

/// The integer that stands for 1.0 in the rotation part of a pose.
pub const ROT_UNIT: i32 = 1000000;

/// Division that rounds toward zero, so that `div_trunc(-a, d) == -div_trunc(a, d)`.
pub open spec fn div_trunc(a: int, d: int) -> int {
    if a >= 0 {
        a / d
    } else {
        -((-a) / d)
    }
}

/// A point of the robot's body frame.
#[derive(Clone, Copy, Debug, PartialEq, Eq, Structural)]
pub struct BodyPoint {
    pub x: i32,
    pub y: i32,
}

/// A point of the display frame.
#[derive(Clone, Copy, Debug, PartialEq, Eq, Structural)]
pub struct DisplayPoint {
    pub x: i64,
    pub y: i64,
}

/// A line segment of the display frame.
#[derive(Clone, Copy, Debug, PartialEq, Eq, Structural)]
pub struct Segment {
    pub x1: i64,
    pub y1: i64,
    pub x2: i64,
    pub y2: i64,
}

/// A planar rigid transform: a translation and a rotation given by its cosine
/// and sine, both scaled by `ROT_UNIT`.
#[derive(Clone, Copy, Debug, PartialEq, Eq, Structural)]
pub struct Pose {
    pub x: i32,
    pub y: i32,
    pub cos: i32,
    pub sin: i32,
}

impl Pose {
    /// The rotation components lie in `[-ROT_UNIT, ROT_UNIT]`.
    pub open spec fn wf(&self) -> bool {
        -ROT_UNIT <= self.cos <= ROT_UNIT && -ROT_UNIT <= self.sin <= ROT_UNIT
    }

    pub open spec fn spec_identity() -> Pose {
        Pose { x: 0, y: 0, cos: ROT_UNIT, sin: 0 }
    }

    /// The same pose turned by half a revolution about its own origin.
    pub open spec fn half_turned(self) -> Pose {
        Pose { x: self.x, y: self.y, cos: (-self.cos) as i32, sin: (-self.sin) as i32 }
    }

    pub fn identity() -> (r: Pose)
        ensures
            r == Pose::spec_identity(),
            r.wf(),
    {
        Pose { x: 0, y: 0, cos: ROT_UNIT, sin: 0 }
    }
}

/// `(x, y)` of the body frame carried into the display frame by `p`.
pub open spec fn apply_pose(p: Pose, x: int, y: int) -> DisplayPoint {
    DisplayPoint {
        x: (p.x + div_trunc(x * p.cos - y * p.sin, ROT_UNIT as int)) as i64,
        y: (p.y + div_trunc(x * p.sin + y * p.cos, ROT_UNIT as int)) as i64,
    }
}

proof fn lemma_rotated_bound(x: int, y: int, c: int, s: int)
    requires
        -0x8000_0000 <= x < 0x8000_0000,
        -0x8000_0000 <= y < 0x8000_0000,
        -1000000 <= c <= 1000000,
        -1000000 <= s <= 1000000,
    ensures
        -0x10_0000_0000_0000 < x * c - y * s < 0x10_0000_0000_0000,
        -0x10_0000_0000_0000 < x * s + y * c < 0x10_0000_0000_0000,
        -0x8_0000_0000_0000 < x * c < 0x8_0000_0000_0000,
        -0x8_0000_0000_0000 < y * s < 0x8_0000_0000_0000,
        -0x8_0000_0000_0000 < x * s < 0x8_0000_0000_0000,
        -0x8_0000_0000_0000 < y * c < 0x8_0000_0000_0000,
{
    assert(-0x8_0000_0000_0000 < x * c < 0x8_0000_0000_0000) by (nonlinear_arith)
        requires -0x8000_0000 <= x < 0x8000_0000, -1000000 <= c <= 1000000;
    assert(-0x8_0000_0000_0000 < y * s < 0x8_0000_0000_0000) by (nonlinear_arith)
        requires -0x8000_0000 <= y < 0x8000_0000, -1000000 <= s <= 1000000;
    assert(-0x8_0000_0000_0000 < x * s < 0x8_0000_0000_0000) by (nonlinear_arith)
        requires -0x8000_0000 <= x < 0x8000_0000, -1000000 <= s <= 1000000;
    assert(-0x8_0000_0000_0000 < y * c < 0x8_0000_0000_0000) by (nonlinear_arith)
        requires -0x8000_0000 <= y < 0x8000_0000, -1000000 <= c <= 1000000;
}

/// Dividing by a positive integer toward zero keeps the sign and does not
/// grow the magnitude.
pub proof fn lemma_div_trunc_bound(a: int, d: int)
    requires
        d > 0,
    ensures
        a >= 0 ==> 0 <= div_trunc(a, d) <= a,
        a < 0 ==> a <= div_trunc(a, d) <= 0,
{
    if a >= 0 {
        vstd::arithmetic::div_mod::lemma_div_is_ordered_by_denominator(a, 1, d);
    } else {
        vstd::arithmetic::div_mod::lemma_div_is_ordered_by_denominator(-a, 1, d);
    }
}

/// Integer division rounding toward zero.
pub fn div_toward_zero(a: i64, d: i64) -> (r: i64)
    requires
        d > 0,
        a > i64::MIN,
    ensures
        r == div_trunc(a as int, d as int),
{
    if a >= 0 {
        ((a as u64) / (d as u64)) as i64
    } else {
        let m: u64 = ((-a) as u64) / (d as u64);
        -(m as i64)
    }
}

/// Carries a body-frame point into the display frame.
pub fn transform_point(p: &Pose, x: i32, y: i32) -> (r: DisplayPoint)
    requires
        p.wf(),
    ensures
        r == apply_pose(*p, x as int, y as int),
{
    proof {
        lemma_rotated_bound(x as int, y as int, p.cos as int, p.sin as int);
    }
    let rx: i64 = (x as i64) * (p.cos as i64) - (y as i64) * (p.sin as i64);
    let ry: i64 = (x as i64) * (p.sin as i64) + (y as i64) * (p.cos as i64);
    proof {
        lemma_div_trunc_bound(rx as int, ROT_UNIT as int);
        lemma_div_trunc_bound(ry as int, ROT_UNIT as int);
    }
    let qx = div_toward_zero(rx, ROT_UNIT as i64);
    let qy = div_toward_zero(ry, ROT_UNIT as i64);
    DisplayPoint { x: p.x as i64 + qx, y: p.y as i64 + qy }
}

/// A colour of a drawn shape.
#[derive(Clone, Copy, Debug, PartialEq, Eq, Structural)]
pub enum Color {
    Red,
    Green,
    Blue,
    Rgb(u8, u8, u8),
}

/// A coloured segment of the display frame.
#[derive(Clone, Copy, Debug, PartialEq, Eq, Structural)]
pub struct Line {
    pub x1: i64,
    pub y1: i64,
    pub x2: i64,
    pub y2: i64,
    pub color: Color,
}

/// Index of the vertex that follows vertex `i` of a closed polygon of `n` vertices.
pub open spec fn next_vertex(i: int, n: int) -> int {
    if i + 1 == n {
        0
    } else {
        i + 1
    }
}

/// The edges of the closed polygon `body`, as given, one per vertex.
pub open spec fn body_edges(body: Seq<BodyPoint>) -> Seq<Segment> {
    Seq::new(
        body.len(),
        |i: int|
            Segment {
                x1: body[i].x as i64,
                y1: body[i].y as i64,
                x2: body[next_vertex(i, body.len() as int)].x as i64,
                y2: body[next_vertex(i, body.len() as int)].y as i64,
            },
    )
}

/// The edges of the closed polygon `body`, each endpoint carried by `p`.
pub open spec fn footprint_edges(body: Seq<BodyPoint>, p: Pose) -> Seq<Segment> {
    Seq::new(
        body.len(),
        |i: int|
            {
                let a = apply_pose(p, body[i].x as int, body[i].y as int);
                let b = apply_pose(
                    p,
                    body[next_vertex(i, body.len() as int)].x as int,
                    body[next_vertex(i, body.len() as int)].y as int,
                );
                Segment { x1: a.x, y1: a.y, x2: b.x, y2: b.y }
            },
    )
}

/// Projects the robot's outline into the display frame: one segment for each
/// pair of consecutive vertices, the last vertex joined to the first.
pub fn project_footprint(body: &Vec<BodyPoint>, p: &Pose) -> (r: Vec<Segment>)
    requires
        p.wf(),
    ensures
        r@ == footprint_edges(body@, *p),
{
    let n = body.len();
    let mut r: Vec<Segment> = Vec::new();
    let mut i: usize = 0;
    while i < n
        invariant
            n == body@.len(),
            i <= n,
            p.wf(),
            r@ == footprint_edges(body@, *p).take(i as int),
        decreases n - i,
    {
        let j: usize = if i + 1 == n {
            0
        } else {
            i + 1
        };
        let a = transform_point(p, body[i].x, body[i].y);
        let b = transform_point(p, body[j].x, body[j].y);
        r.push(Segment { x1: a.x, y1: a.y, x2: b.x, y2: b.y });
        i = i + 1;
        assert(r@ =~= footprint_edges(body@, *p).take(i as int));
    }
    assert(r@ =~= footprint_edges(body@, *p));
    r
}

/// The identity pose leaves every point of the body frame where it is.
pub proof fn lemma_identity_fixes_points(x: i32, y: i32)
    ensures
        apply_pose(Pose::spec_identity(), x as int, y as int) == (DisplayPoint {
            x: x as i64,
            y: y as i64,
        }),
{
    let u = ROT_UNIT as int;
    assert(x * u - y * 0 == u * x) by (nonlinear_arith);
    assert(x * 0 + y * u == u * y) by (nonlinear_arith);
    vstd::arithmetic::div_mod::lemma_div_multiples_vanish(x as int, u);
    vstd::arithmetic::div_mod::lemma_div_multiples_vanish(y as int, u);
    vstd::arithmetic::div_mod::lemma_div_multiples_vanish(-x, u);
    vstd::arithmetic::div_mod::lemma_div_multiples_vanish(-y, u);
    assert(u * (-x) == -(u * x)) by (nonlinear_arith);
    assert(u * (-y) == -(u * y)) by (nonlinear_arith);
}

/// Projecting the outline with the identity pose gives the outline's own edges.
pub proof fn lemma_footprint_identity(body: Seq<BodyPoint>)
    ensures
        footprint_edges(body, Pose::spec_identity()) == body_edges(body),
{
    assert forall|i: int| 0 <= i < body.len() implies footprint_edges(body, Pose::spec_identity())[i]
        == body_edges(body)[i] by {
        let j = next_vertex(i, body.len() as int);
        lemma_identity_fixes_points(body[i].x, body[i].y);
        lemma_identity_fixes_points(body[j].x, body[j].y);
    }
    assert(footprint_edges(body, Pose::spec_identity()) =~= body_edges(body));
}

/// The two axis indicators of a pose: a red segment along its X axis and a
/// green one along its Y axis, each `axis_length` long, from its origin.
pub open spec fn axis_lines(p: Pose, axis_length: int) -> Seq<Line> {
    let ex = apply_pose(p, axis_length, 0);
    let ey = apply_pose(p, 0, axis_length);
    seq![
        Line { x1: p.x as i64, y1: p.y as i64, x2: ex.x, y2: ex.y, color: Color::Red },
        Line { x1: p.x as i64, y1: p.y as i64, x2: ey.x, y2: ey.y, color: Color::Green },
    ]
}

/// The lines that show the axes of the frame posed at `p`.
pub fn get_frame_lines(p: &Pose, axis_length: i32) -> (r: Vec<Line>)
    requires
        p.wf(),
    ensures
        r@ == axis_lines(*p, axis_length as int),
{
    let ex = transform_point(p, axis_length, 0);
    let ey = transform_point(p, 0, axis_length);
    let mut r: Vec<Line> = Vec::new();
    r.push(Line { x1: p.x as i64, y1: p.y as i64, x2: ex.x, y2: ex.y, color: Color::Red });
    r.push(Line { x1: p.x as i64, y1: p.y as i64, x2: ey.x, y2: ey.y, color: Color::Green });
    assert(r@ =~= axis_lines(*p, axis_length as int));
    r
}

} // verus!
