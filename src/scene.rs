//! The scene drawn on each tick, as an ordered list of draw requests.
use vstd::prelude::*;
use crate::geometry::{Color, DisplayPoint, Line, Segment};
use crate::listener::copy_all;

verus! {

/// One request to the drawing surface.
pub enum DrawItem {
    /// A set of points in one colour.
    Points { coords: Vec<DisplayPoint>, color: Color },
    /// One coloured segment.
    Line(Line),
    /// Start of a new layer: what follows is drawn over what came before.
    Layer,
}

/// What a draw request asks for.
pub enum DrawView {
    Points(Seq<DisplayPoint>, Color),
    Line(Line),
    Layer,
}

impl View for DrawItem {
    type V = DrawView;

    open spec fn view(&self) -> DrawView {
        match self {
            DrawItem::Points { coords, color } => DrawView::Points(coords@, *color),
            DrawItem::Line(l) => DrawView::Line(*l),
            DrawItem::Layer => DrawView::Layer,
        }
    }
}

/// The colour of map points.
pub open spec fn map_color() -> Color {
    Color::Rgb(220, 220, 220)
}

/// What a list of draw requests asks for, in order.
pub open spec fn views(s: Seq<DrawItem>) -> Seq<DrawView> {
    s.map_values(|d: DrawItem| d@)
}

/// The point sets of several sources, one request each, in one colour.
pub open spec fn point_requests(sets: Seq<Seq<DisplayPoint>>, c: Color) -> Seq<DrawView> {
    sets.map_values(|s: Seq<DisplayPoint>| DrawView::Points(s, c))
}

/// One request per line.
pub open spec fn line_requests(ls: Seq<Line>) -> Seq<DrawView> {
    ls.map_values(|l: Line| DrawView::Line(l))
}

/// One request per segment, each in colour `c`.
pub open spec fn segment_requests(ss: Seq<Segment>, c: Color) -> Seq<DrawView> {
    ss.map_values(|s: Segment| DrawView::Line(Line { x1: s.x1, y1: s.y1, x2: s.x2, y2: s.y2, color: c }))
}

/// The lines of several sources, one after another.
pub open spec fn concat_lines(ms: Seq<Seq<Line>>) -> Seq<Line>
    decreases ms.len(),
{
    if ms.len() == 0 {
        Seq::empty()
    } else {
        concat_lines(ms.drop_last()) + ms.last()
    }
}

/// The views of nested vectors.
pub open spec fn nested_view<T>(v: Seq<Vec<T>>) -> Seq<Seq<T>> {
    v.map_values(|x: Vec<T>| x@)
}

/// A scene from bottom to top: map points, a layer break, the robot's outline
/// in blue, range-scan points in red, marker lines, and the robot's axes.
pub open spec fn scene(
    maps: Seq<Seq<DisplayPoint>>,
    footprint: Seq<Segment>,
    lasers: Seq<Seq<DisplayPoint>>,
    markers: Seq<Seq<Line>>,
    axes: Seq<Line>,
) -> Seq<DrawView> {
    point_requests(maps, map_color()) + seq![DrawView::Layer] + segment_requests(footprint, Color::Blue)
        + point_requests(lasers, Color::Red) + line_requests(concat_lines(markers))
        + line_requests(axes)
}

proof fn lemma_views_push(s: Seq<DrawItem>, d: DrawItem)
    ensures
        views(s.push(d)) == views(s).push(d@),
{
    assert(views(s.push(d)) =~= views(s).push(d@));
}

/// Appends one request per point set, each in colour `c`.
pub fn push_point_sets(r: &mut Vec<DrawItem>, sets: &Vec<Vec<DisplayPoint>>, c: Color)
    ensures
        views(final(r)@) == views(old(r)@) + point_requests(nested_view(sets@), c),
{
    let ghost start = views(r@);
    let mut i: usize = 0;
    while i < sets.len()
        invariant
            i <= sets@.len(),
            views(r@) == start + point_requests(nested_view(sets@), c).take(i as int),
        decreases sets@.len() - i,
    {
        let coords = copy_all(&sets[i]);
        proof {
            lemma_views_push(r@, DrawItem::Points { coords, color: c });
        }
        r.push(DrawItem::Points { coords, color: c });
        i = i + 1;
        assert(views(r@) =~= start + point_requests(nested_view(sets@), c).take(i as int));
    }
    assert(point_requests(nested_view(sets@), c).take(i as int) =~= point_requests(nested_view(sets@), c));
}

/// Appends one request per line.
pub fn push_lines(r: &mut Vec<DrawItem>, ls: &Vec<Line>)
    ensures
        views(final(r)@) == views(old(r)@) + line_requests(ls@),
{
    let ghost start = views(r@);
    let mut i: usize = 0;
    while i < ls.len()
        invariant
            i <= ls@.len(),
            views(r@) == start + line_requests(ls@).take(i as int),
        decreases ls@.len() - i,
    {
        proof {
            lemma_views_push(r@, DrawItem::Line(ls@[i as int]));
        }
        r.push(DrawItem::Line(ls[i]));
        i = i + 1;
        assert(views(r@) =~= start + line_requests(ls@).take(i as int));
    }
    assert(line_requests(ls@).take(i as int) =~= line_requests(ls@));
}

/// Appends one request per segment, each in colour `c`.
pub fn push_segments(r: &mut Vec<DrawItem>, ss: &Vec<Segment>, c: Color)
    ensures
        views(final(r)@) == views(old(r)@) + segment_requests(ss@, c),
{
    let ghost start = views(r@);
    let mut i: usize = 0;
    while i < ss.len()
        invariant
            i <= ss@.len(),
            views(r@) == start + segment_requests(ss@, c).take(i as int),
        decreases ss@.len() - i,
    {
        let s = ss[i];
        let l = Line { x1: s.x1, y1: s.y1, x2: s.x2, y2: s.y2, color: c };
        proof {
            lemma_views_push(r@, DrawItem::Line(l));
        }
        r.push(DrawItem::Line(l));
        i = i + 1;
        assert(views(r@) =~= start + segment_requests(ss@, c).take(i as int));
    }
    assert(segment_requests(ss@, c).take(i as int) =~= segment_requests(ss@, c));
}

/// Appends one request per line of every source, source after source.
pub fn push_marker_lines(r: &mut Vec<DrawItem>, markers: &Vec<Vec<Line>>)
    ensures
        views(final(r)@) == views(old(r)@) + line_requests(concat_lines(nested_view(markers@))),
{
    let ghost start = views(r@);
    let mut i: usize = 0;
    while i < markers.len()
        invariant
            i <= markers@.len(),
            views(r@) == start + line_requests(concat_lines(nested_view(markers@).take(i as int))),
        decreases markers@.len() - i,
    {
        push_lines(r, &markers[i]);
        proof {
            let ms = nested_view(markers@);
            assert(ms.take(i + 1).drop_last() =~= ms.take(i as int));
            assert(line_requests(concat_lines(ms.take(i + 1))) =~= line_requests(
                concat_lines(ms.take(i as int)),
            ) + line_requests(markers@[i as int]@));
        }
        i = i + 1;
    }
    assert(nested_view(markers@).take(i as int) =~= nested_view(markers@));
}

} // verus!
