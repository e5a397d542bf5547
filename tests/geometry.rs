use termviz::geometry::{
    div_toward_zero, get_frame_lines, project_footprint, transform_point, BodyPoint, Color, DisplayPoint, Line,
    Pose, Segment, ROT_UNIT,
};

fn outline() -> Vec<BodyPoint> {
    vec![
        BodyPoint { x: -300, y: -200 },
        BodyPoint { x: 300, y: -200 },
        BodyPoint { x: 300, y: 200 },
        BodyPoint { x: -300, y: 200 },
    ]
}

#[test]
fn identity_pose_keeps_outline_edges() {
    let body = outline();
    let edges = project_footprint(&body, &Pose::identity());
    assert_eq!(edges.len(), 4);
    for i in 0..4 {
        let a = body[i];
        let b = body[(i + 1) % 4];
        assert_eq!(edges[i], Segment { x1: a.x as i64, y1: a.y as i64, x2: b.x as i64, y2: b.y as i64 });
    }
}

#[test]
fn quarter_turn_and_translation_move_outline() {
    let p = Pose { x: 1000, y: 500, cos: 0, sin: ROT_UNIT };
    let edges = project_footprint(&outline(), &p);
    assert_eq!(edges[0], Segment { x1: 1200, y1: 200, x2: 1200, y2: 800 });
    assert_eq!(edges[3], Segment { x1: 800, y1: 200, x2: 1200, y2: 200 });
}

#[test]
fn empty_outline_gives_no_edges() {
    assert!(project_footprint(&Vec::new(), &Pose::identity()).is_empty());
}

#[test]
fn single_vertex_outline_gives_one_point_edge() {
    let edges = project_footprint(&vec![BodyPoint { x: 7, y: -3 }], &Pose::identity());
    assert_eq!(edges, vec![Segment { x1: 7, y1: -3, x2: 7, y2: -3 }]);
}

#[test]
fn half_turn_negates_points() {
    let p = Pose { x: 0, y: 0, cos: -ROT_UNIT, sin: 0 };
    assert_eq!(transform_point(&p, 123, -456), DisplayPoint { x: -123, y: 456 });
}

#[test]
fn rotation_rounds_toward_zero() {
    let p = Pose { x: 0, y: 0, cos: 707107, sin: 707107 };
    assert_eq!(transform_point(&p, 1000, 0), DisplayPoint { x: 707, y: 707 });
    assert_eq!(transform_point(&p, -1000, 0), DisplayPoint { x: -707, y: -707 });
    assert_eq!(div_toward_zero(-7, 2), -3);
    assert_eq!(div_toward_zero(7, 2), 3);
}

#[test]
fn frame_lines_show_both_axes() {
    let p = Pose { x: 100, y: 200, cos: 0, sin: ROT_UNIT };
    let lines = get_frame_lines(&p, 50);
    assert_eq!(
        lines,
        vec![
            Line { x1: 100, y1: 200, x2: 100, y2: 250, color: Color::Red },
            Line { x1: 100, y1: 200, x2: 50, y2: 200, color: Color::Green },
        ]
    );
}
