use termviz::geometry::{BodyPoint, Color, Line, Pose, ROT_UNIT};
use termviz::scene::DrawItem;
use termviz::viewer::{App, AppModes, Bounds, Extents, ZoomError, ZOOM_UNIT};

fn square_extents() -> Extents {
    Extents { x_min: -5000, x_max: 5000, y_min: -5000, y_max: 5000 }
}

#[test]
fn bounds_on_wide_terminal_halve_horizontal_extent() {
    let mut app = App::new(square_extents(), 100, 1000, (80, 40));
    let p = Pose { x: 0, y: 0, cos: ROT_UNIT, sin: 0 };
    app.compute_bounds(&p);
    assert_eq!(app.bounds(), Bounds { x_min: -2500, x_max: 2500, y_min: -5000, y_max: 5000 });
}

#[test]
fn bounds_are_centred_on_robot() {
    let mut app = App::new(square_extents(), 100, 1000, (80, 40));
    let p = Pose { x: 1000, y: 2000, cos: 0, sin: ROT_UNIT };
    app.compute_bounds(&p);
    assert_eq!(app.bounds(), Bounds { x_min: -1500, x_max: 3500, y_min: -3000, y_max: 7000 });
}

#[test]
fn bounds_reflect_under_half_turn_and_mirrored_extents() {
    let init = Extents { x_min: -3001, x_max: 7003, y_min: -1234, y_max: 4321 };
    let mirrored = Extents { x_min: -7003, x_max: 3001, y_min: -4321, y_max: 1234 };
    let p = Pose { x: 500, y: -700, cos: 600000, sin: 800000 };
    let q = Pose { x: 500, y: -700, cos: -600000, sin: -800000 };
    let mut a = App::new(init, 100, 1000, (97, 31));
    let mut b = App::new(mirrored, 100, 1000, (97, 31));
    a.decrease_zoom().unwrap();
    b.decrease_zoom().unwrap();
    a.compute_bounds(&p);
    b.compute_bounds(&q);
    let (ba, bb) = (a.bounds(), b.bounds());
    assert_eq!(bb.x_min - 500, -(ba.x_max - 500));
    assert_eq!(bb.x_max - 500, -(ba.x_min - 500));
    assert_eq!(bb.y_min + 700, -(ba.y_max + 700));
    assert_eq!(bb.y_max + 700, -(ba.y_min + 700));
}

#[test]
fn bounds_follow_zoom() {
    let mut app = App::new(square_extents(), 1000, 1000, (40, 40));
    app.decrease_zoom().unwrap();
    assert_eq!(app.zoom(), 2000);
    app.compute_bounds(&Pose { x: 0, y: 0, cos: ROT_UNIT, sin: 0 });
    assert_eq!(app.bounds(), Bounds { x_min: -2500, x_max: 2500, y_min: -2500, y_max: 2500 });
}

#[test]
fn new_app_starts_at_unit_zoom() {
    let app = App::new(square_extents(), 100, 1000, (80, 40));
    assert_eq!(app.zoom(), ZOOM_UNIT);
    assert_eq!(app.mode(), AppModes::RobotView);
    assert_eq!(app.bounds(), Bounds { x_min: -5000, x_max: 5000, y_min: -5000, y_max: 5000 });
}

#[test]
fn repeated_zoom_in_is_refused_before_zoom_reaches_zero() {
    let mut app = App::new(square_extents(), 100, 1000, (80, 40));
    let mut refused = 0;
    for _ in 0..20 {
        match app.increase_zoom() {
            Ok(()) => assert!(app.zoom() > 0),
            Err(e) => {
                assert_eq!(e, ZoomError::DegenerateZoom);
                refused += 1;
            }
        }
    }
    assert_eq!(app.zoom(), 100);
    assert_eq!(refused, 11);
}

#[test]
fn zoom_out_overflow_is_refused() {
    let mut app = App::new(square_extents(), 4_294_967_000, 1000, (80, 40));
    assert_eq!(app.decrease_zoom(), Err(ZoomError::ZoomOverflow));
    assert_eq!(app.zoom(), ZOOM_UNIT);
}

#[test]
fn scene_layers_come_in_fixed_order() {
    let app = App::new(square_extents(), 100, 1000, (80, 40));
    let p = Pose { x: 0, y: 0, cos: ROT_UNIT, sin: 0 };
    let body = vec![BodyPoint { x: 0, y: 0 }, BodyPoint { x: 10, y: 0 }];
    let maps = vec![vec![termviz::geometry::DisplayPoint { x: 1, y: 1 }]];
    let lasers = vec![vec![termviz::geometry::DisplayPoint { x: 2, y: 2 }]];
    let marker = Line { x1: 0, y1: 0, x2: 5, y2: 5, color: Color::Rgb(1, 2, 3) };
    let markers = vec![vec![marker]];
    let scene = app.draw_robot(Some(p), &body, &maps, &lasers, &markers);
    assert_eq!(scene.len(), 8);
    assert!(matches!(&scene[0], DrawItem::Points { color: Color::Rgb(220, 220, 220), .. }));
    assert!(matches!(&scene[1], DrawItem::Layer));
    assert!(matches!(&scene[2], DrawItem::Line(Line { x1: 0, y1: 0, x2: 10, y2: 0, color: Color::Blue })));
    assert!(matches!(&scene[3], DrawItem::Line(Line { x1: 10, y1: 0, x2: 0, y2: 0, color: Color::Blue })));
    assert!(matches!(&scene[4], DrawItem::Points { color: Color::Red, .. }));
    assert!(matches!(&scene[5], DrawItem::Line(l) if *l == marker));
    assert!(matches!(&scene[6], DrawItem::Line(Line { x2: 1000, y2: 0, color: Color::Red, .. })));
    assert!(matches!(&scene[7], DrawItem::Line(Line { x2: 0, y2: 1000, color: Color::Green, .. })));
}

#[test]
fn scene_without_pose_leaves_out_outline_and_axes() {
    let app = App::new(square_extents(), 100, 1000, (80, 40));
    let body = vec![BodyPoint { x: 0, y: 0 }, BodyPoint { x: 10, y: 0 }];
    let maps = vec![vec![termviz::geometry::DisplayPoint { x: 1, y: 1 }]];
    let lasers: Vec<Vec<termviz::geometry::DisplayPoint>> = vec![];
    let markers: Vec<Vec<Line>> = vec![vec![], vec![Line { x1: 0, y1: 0, x2: 1, y2: 1, color: Color::Green }]];
    let scene = app.draw_robot(None, &body, &maps, &lasers, &markers);
    assert_eq!(scene.len(), 3);
    assert!(matches!(&scene[0], DrawItem::Points { coords, .. } if coords.len() == 1));
    assert!(matches!(&scene[1], DrawItem::Layer));
    assert!(matches!(&scene[2], DrawItem::Line(Line { x2: 1, y2: 1, color: Color::Green, .. })));
}
