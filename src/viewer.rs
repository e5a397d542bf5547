//! The robot view: visible bounds, zoom, and the scene drawn on each tick.
use vstd::prelude::*;
use crate::geometry::{
    axis_lines, div_toward_zero, div_trunc, lemma_div_trunc_bound, footprint_edges, get_frame_lines, project_footprint,
    BodyPoint, Color, DisplayPoint, Line, Pose, Segment,
};
use crate::scene::{
    nested_view, push_lines, push_marker_lines, push_point_sets, push_segments, scene, views, DrawItem, DrawView,
};

verus! {

/// The integer that stands for a zoom of 1.0.
pub const ZOOM_UNIT: u32 = 1000;

/// The display pages of the viewer.
#[derive(Clone, Copy, Debug, PartialEq, Eq, Structural)]
pub enum AppModes {
    RobotView,
}

/// Visible extents around the robot at a zoom of 1.0.
#[derive(Clone, Copy, Debug, PartialEq, Eq, Structural)]
pub struct Extents {
    pub x_min: i32,
    pub x_max: i32,
    pub y_min: i32,
    pub y_max: i32,
}

/// The visible rectangle of the display frame.
#[derive(Clone, Copy, Debug, PartialEq, Eq, Structural)]
pub struct Bounds {
    pub x_min: i64,
    pub x_max: i64,
    pub y_min: i64,
    pub y_max: i64,
}

/// Why a zoom step was refused; the viewport is then left as it was.
#[derive(Clone, Copy, Debug, PartialEq, Eq, Structural)]
pub enum ZoomError {
    /// The step would bring the zoom to zero or below.
    DegenerateZoom,
    /// The step would take the zoom past what a `u32` holds.
    ZoomOverflow,
}

/// A horizontal extent at zoom `zoom` (in thousandths) on a terminal of
/// `cols` by `rows` cells: divided by the zoom and by the terminal's
/// width-to-height ratio.
pub open spec fn scaled_horizontal(v: int, zoom: int, cols: int, rows: int) -> int {
    div_trunc(v * (ZOOM_UNIT as int) * rows, zoom * cols)
}

/// A vertical extent at zoom `zoom` (in thousandths): divided by the zoom.
pub open spec fn scaled_vertical(v: int, zoom: int) -> int {
    div_trunc(v * (ZOOM_UNIT as int), zoom)
}

/// The visible rectangle, centred on the translation of `p`.
pub open spec fn view_bounds(init: Extents, zoom: int, cols: int, rows: int, p: Pose) -> Bounds {
    Bounds {
        x_min: (p.x + scaled_horizontal(init.x_min as int, zoom, cols, rows)) as i64,
        x_max: (p.x + scaled_horizontal(init.x_max as int, zoom, cols, rows)) as i64,
        y_min: (p.y + scaled_vertical(init.y_min as int, zoom)) as i64,
        y_max: (p.y + scaled_vertical(init.y_max as int, zoom)) as i64,
    }
}

/// The state of the robot view.
pub struct App {
    mode: AppModes,
    terminal_size: (u16, u16),
    initial_bounds: Extents,
    bounds: Bounds,
    zoom: u32,
    axis_length: i32,
    zoom_factor: u32,
}

impl App {
    /// The zoom is positive and the terminal has at least one cell each way.
    pub open spec fn wf(&self) -> bool {
        self.spec_zoom() > 0 && self.spec_terminal_size().0 > 0 && self.spec_terminal_size().1 > 0
    }

    pub closed spec fn spec_mode(&self) -> AppModes {
        self.mode
    }

    pub closed spec fn spec_zoom(&self) -> u32 {
        self.zoom
    }

    pub closed spec fn spec_zoom_factor(&self) -> u32 {
        self.zoom_factor
    }

    pub closed spec fn spec_bounds(&self) -> Bounds {
        self.bounds
    }

    pub closed spec fn spec_initial_bounds(&self) -> Extents {
        self.initial_bounds
    }

    pub closed spec fn spec_terminal_size(&self) -> (u16, u16) {
        self.terminal_size
    }

    pub closed spec fn spec_axis_length(&self) -> i32 {
        self.axis_length
    }

    /// A robot view at zoom 1.0 whose bounds are the initial extents.
    pub fn new(initial_bounds: Extents, zoom_factor: u32, axis_length: i32, terminal_size: (u16, u16)) -> (r: App)
        requires
            terminal_size.0 > 0,
            terminal_size.1 > 0,
        ensures
            r.wf(),
            r.spec_mode() == AppModes::RobotView,
            r.spec_zoom() == ZOOM_UNIT,
            r.spec_zoom_factor() == zoom_factor,
            r.spec_initial_bounds() == initial_bounds,
            r.spec_bounds() == (Bounds {
                x_min: initial_bounds.x_min as i64,
                x_max: initial_bounds.x_max as i64,
                y_min: initial_bounds.y_min as i64,
                y_max: initial_bounds.y_max as i64,
            }),
            r.spec_terminal_size() == terminal_size,
            r.spec_axis_length() == axis_length,
    {
        App {
            mode: AppModes::RobotView,
            terminal_size,
            initial_bounds,
            bounds: Bounds {
                x_min: initial_bounds.x_min as i64,
                x_max: initial_bounds.x_max as i64,
                y_min: initial_bounds.y_min as i64,
                y_max: initial_bounds.y_max as i64,
            },
            zoom: ZOOM_UNIT,
            axis_length,
            zoom_factor,
        }
    }

    pub fn mode(&self) -> (r: AppModes)
        ensures
            r == self.spec_mode(),
    {
        self.mode
    }

    pub fn zoom(&self) -> (r: u32)
        ensures
            r == self.spec_zoom(),
    {
        self.zoom
    }

    pub fn bounds(&self) -> (r: Bounds)
        ensures
            r == self.spec_bounds(),
    {
        self.bounds
    }

    /// Recomputes the visible bounds around the robot's pose `p`.
    pub fn compute_bounds(&mut self, p: &Pose)
        requires
            old(self).wf(),
        ensures
            final(self).spec_bounds() == view_bounds(
                old(self).spec_initial_bounds(),
                old(self).spec_zoom() as int,
                old(self).spec_terminal_size().0 as int,
                old(self).spec_terminal_size().1 as int,
                *p,
            ),
            final(self).spec_zoom() == old(self).spec_zoom(),
            final(self).spec_zoom_factor() == old(self).spec_zoom_factor(),
            final(self).spec_initial_bounds() == old(self).spec_initial_bounds(),
            final(self).spec_terminal_size() == old(self).spec_terminal_size(),
            final(self).spec_axis_length() == old(self).spec_axis_length(),
            final(self).spec_mode() == old(self).spec_mode(),
            final(self).wf(),
    {
        let cols = self.terminal_size.0 as i64;
        let rows = self.terminal_size.1 as i64;
        let zoom = self.zoom as i64;
        let init = self.initial_bounds;
        let x_min = p.x as i64 + scale_horizontal(init.x_min, zoom, cols, rows);
        let x_max = p.x as i64 + scale_horizontal(init.x_max, zoom, cols, rows);
        let y_min = p.y as i64 + scale_vertical(init.y_min, zoom);
        let y_max = p.y as i64 + scale_vertical(init.y_max, zoom);
        self.bounds = Bounds { x_min, x_max, y_min, y_max };
    }

    /// Zooms in by one step: the zoom value drops by the step, unless that
    /// would bring it to zero or below.
    pub fn increase_zoom(&mut self) -> (r: Result<(), ZoomError>)
        requires
            old(self).wf(),
        ensures
            final(self).wf(),
            old(self).spec_zoom() > old(self).spec_zoom_factor() ==> r is Ok
                && final(self).spec_zoom() == old(self).spec_zoom() - old(self).spec_zoom_factor(),
            old(self).spec_zoom() <= old(self).spec_zoom_factor() ==> r == Err::<(), ZoomError>(ZoomError::DegenerateZoom)
                && final(self).spec_zoom() == old(self).spec_zoom(),
            final(self).spec_zoom_factor() == old(self).spec_zoom_factor(),
            final(self).spec_bounds() == old(self).spec_bounds(),
            final(self).spec_initial_bounds() == old(self).spec_initial_bounds(),
            final(self).spec_terminal_size() == old(self).spec_terminal_size(),
            final(self).spec_axis_length() == old(self).spec_axis_length(),
            final(self).spec_mode() == old(self).spec_mode(),
    {
        if self.zoom > self.zoom_factor {
            self.zoom = self.zoom - self.zoom_factor;
            Ok(())
        } else {
            Err(ZoomError::DegenerateZoom)
        }
    }

    /// Zooms out by one step: the zoom value grows by the step, unless the sum
    /// does not fit in a `u32`.
    pub fn decrease_zoom(&mut self) -> (r: Result<(), ZoomError>)
        requires
            old(self).wf(),
        ensures
            final(self).wf(),
            old(self).spec_zoom() + old(self).spec_zoom_factor() <= u32::MAX ==> r is Ok
                && final(self).spec_zoom() == old(self).spec_zoom() + old(self).spec_zoom_factor(),
            old(self).spec_zoom() + old(self).spec_zoom_factor() > u32::MAX ==> r == Err::<(), ZoomError>(ZoomError::ZoomOverflow)
                && final(self).spec_zoom() == old(self).spec_zoom(),
            final(self).spec_zoom_factor() == old(self).spec_zoom_factor(),
            final(self).spec_bounds() == old(self).spec_bounds(),
            final(self).spec_initial_bounds() == old(self).spec_initial_bounds(),
            final(self).spec_terminal_size() == old(self).spec_terminal_size(),
            final(self).spec_axis_length() == old(self).spec_axis_length(),
            final(self).spec_mode() == old(self).spec_mode(),
    {
        if self.zoom <= u32::MAX - self.zoom_factor {
            self.zoom = self.zoom + self.zoom_factor;
            Ok(())
        } else {
            Err(ZoomError::ZoomOverflow)
        }
    }
}

proof fn lemma_scaled_bound(v: int, a: int, b: int)
    requires
        -0x8000_0000 <= v < 0x8000_0000,
        0 <= a <= 1000,
        0 <= b < 0x1_0000,
    ensures
        -0x400_0000_0000_0000 < v * a * b < 0x400_0000_0000_0000,
        -0x400_0000_0000_0000 < v * a < 0x400_0000_0000_0000,
{
    let va = v * a;
    assert(-0x200_0000_0000 <= va <= 0x200_0000_0000) by (nonlinear_arith)
        requires -0x8000_0000 <= v < 0x8000_0000, 0 <= a <= 1000, va == v * a;
    assert(-0x400_0000_0000_0000 < va * b < 0x400_0000_0000_0000) by (nonlinear_arith)
        requires -0x200_0000_0000 <= va <= 0x200_0000_0000, 0 <= b < 0x1_0000;
}

fn scale_horizontal(v: i32, zoom: i64, cols: i64, rows: i64) -> (r: i64)
    requires
        0 < zoom <= u32::MAX,
        0 < cols <= u16::MAX,
        0 <= rows <= u16::MAX,
    ensures
        r == scaled_horizontal(v as int, zoom as int, cols as int, rows as int),
        -0x400_0000_0000_0000 < r < 0x400_0000_0000_0000,
{
    proof {
        lemma_scaled_bound(v as int, ZOOM_UNIT as int, rows as int);
        assert(0 < zoom * cols <= 0x1_0000_0000 * 0x1_0000) by (nonlinear_arith)
            requires 0 < zoom <= u32::MAX, 0 < cols <= u16::MAX;
    }
    let num: i64 = (v as i64) * (ZOOM_UNIT as i64) * rows;
    let den: i64 = zoom * cols;
    proof {
        lemma_div_trunc_bound(num as int, den as int);
    }
    div_toward_zero(num, den)
}

fn scale_vertical(v: i32, zoom: i64) -> (r: i64)
    requires
        0 < zoom <= u32::MAX,
    ensures
        r == scaled_vertical(v as int, zoom as int),
        -0x400_0000_0000_0000 < r < 0x400_0000_0000_0000,
{
    proof {
        lemma_scaled_bound(v as int, ZOOM_UNIT as int, 0);
    }
    let num: i64 = (v as i64) * (ZOOM_UNIT as i64);
    proof {
        lemma_div_trunc_bound(num as int, zoom as int);
    }
    div_toward_zero(num, zoom)
}

/// Extents mirrored through the robot: every bound negated, so that the
/// minimum and the maximum of each axis change places.
pub open spec fn mirrored(e: Extents) -> Extents {
    Extents {
        x_min: (-e.x_max) as i32,
        x_max: (-e.x_min) as i32,
        y_min: (-e.y_max) as i32,
        y_max: (-e.y_min) as i32,
    }
}

proof fn lemma_scaled_horizontal_odd(v: int, zoom: int, cols: int, rows: int)
    requires
        -0x8000_0000 < v < 0x8000_0000,
        0 < zoom,
        0 < cols,
        0 <= rows < 0x1_0000,
    ensures
        scaled_horizontal(-v, zoom, cols, rows) == -scaled_horizontal(v, zoom, cols, rows),
        -0x400_0000_0000_0000 < scaled_horizontal(v, zoom, cols, rows) < 0x400_0000_0000_0000,
{
    let u = ZOOM_UNIT as int;
    assert((-v) * u * rows == -(v * u * rows)) by (nonlinear_arith);
    assert(0 < zoom * cols) by (nonlinear_arith)
        requires 0 < zoom, 0 < cols;
    lemma_scaled_bound(v, u, rows);
    lemma_div_trunc_bound(v * u * rows, zoom * cols);
}

proof fn lemma_scaled_vertical_odd(v: int, zoom: int)
    requires
        -0x8000_0000 < v < 0x8000_0000,
        0 < zoom,
    ensures
        scaled_vertical(-v, zoom) == -scaled_vertical(v, zoom),
        -0x400_0000_0000_0000 < scaled_vertical(v, zoom) < 0x400_0000_0000_0000,
{
    let u = ZOOM_UNIT as int;
    assert((-v) * u == -(v * u)) by (nonlinear_arith);
    lemma_scaled_bound(v, u, 0);
    lemma_div_trunc_bound(v * u, zoom);
}

/// The visible rectangle is symmetric about the robot: turning the pose by
/// half a revolution and mirroring the initial extents gives the rectangle
/// reflected through the robot's translation, whatever the zoom and the
/// terminal's size. The rectangle thus stays centred on the robot.
pub proof fn lemma_bounds_reflection(init: Extents, zoom: u32, cols: u16, rows: u16, p: Pose)
    requires
        zoom > 0,
        cols > 0,
        init.x_min > i32::MIN,
        init.x_max > i32::MIN,
        init.y_min > i32::MIN,
        init.y_max > i32::MIN,
    ensures
        ({
            let b = view_bounds(init, zoom as int, cols as int, rows as int, p);
            let m = view_bounds(mirrored(init), zoom as int, cols as int, rows as int, p.half_turned());
            &&& m.x_min - p.x == -(b.x_max - p.x)
            &&& m.x_max - p.x == -(b.x_min - p.x)
            &&& m.y_min - p.y == -(b.y_max - p.y)
            &&& m.y_max - p.y == -(b.y_min - p.y)
        }),
{
    lemma_scaled_horizontal_odd(init.x_min as int, zoom as int, cols as int, rows as int);
    lemma_scaled_horizontal_odd(init.x_max as int, zoom as int, cols as int, rows as int);
    lemma_scaled_vertical_odd(init.y_min as int, zoom as int);
    lemma_scaled_vertical_odd(init.y_max as int, zoom as int);
}

impl App {
    /// The scene of one tick, bottom to top: the map points, a layer break,
    /// the robot's outline `body` carried by its pose, the range-scan points,
    /// the marker lines, and the robot's axes. Where the robot's pose could
    /// not be found (`None`), the outline and the axes are left out.
    pub fn draw_robot(
        &self,
        pose: Option<Pose>,
        body: &Vec<BodyPoint>,
        maps: &Vec<Vec<DisplayPoint>>,
        lasers: &Vec<Vec<DisplayPoint>>,
        markers: &Vec<Vec<Line>>,
    ) -> (r: Vec<DrawItem>)
        requires
            pose matches Some(p) ==> p.wf(),
        ensures
            views(r@) == match pose {
                Some(p) => scene(
                    nested_view(maps@),
                    footprint_edges(body@, p),
                    nested_view(lasers@),
                    nested_view(markers@),
                    axis_lines(p, self.spec_axis_length() as int),
                ),
                None => scene(
                    nested_view(maps@),
                    Seq::empty(),
                    nested_view(lasers@),
                    nested_view(markers@),
                    Seq::empty(),
                ),
            },
    {
        let mut r: Vec<DrawItem> = Vec::new();
        assert(views(r@) =~= Seq::empty());
        push_point_sets(&mut r, maps, Color::Rgb(220, 220, 220));
        let ghost before = views(r@);
        r.push(DrawItem::Layer);
        assert(views(r@) =~= before.push(DrawView::Layer));
        let outline = match pose {
            Some(p) => project_footprint(body, &p),
            None => Vec::new(),
        };
        push_segments(&mut r, &outline, Color::Blue);
        push_point_sets(&mut r, lasers, Color::Red);
        push_marker_lines(&mut r, markers);
        let axes = match pose {
            Some(p) => get_frame_lines(&p, self.axis_length),
            None => Vec::new(),
        };
        push_lines(&mut r, &axes);
        proof {
            let mv = nested_view(maps@);
            let lv = nested_view(lasers@);
            let kv = nested_view(markers@);
            match pose {
                Some(p) => {
                    assert(views(r@) =~= scene(mv, footprint_edges(body@, p), lv, kv, axis_lines(p, self.spec_axis_length() as int)));
                },
                None => {
                    assert(outline@ =~= Seq::<Segment>::empty());
                    assert(axes@ =~= Seq::<Line>::empty());
                    assert(views(r@) =~= scene(mv, Seq::empty(), lv, kv, Seq::empty()));
                },
            }
        }
        r
    }
}

} // verus!
