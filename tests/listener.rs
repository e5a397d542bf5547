use termviz::geometry::DisplayPoint;
use termviz::listener::ListenerSource;

fn pts(v: &[(i64, i64)]) -> Vec<DisplayPoint> {
    v.iter().map(|&(x, y)| DisplayPoint { x, y }).collect()
}

#[test]
fn new_source_is_empty() {
    let s: ListenerSource<DisplayPoint> = ListenerSource::new("/scan");
    assert_eq!(s.name(), "/scan");
    assert!(s.snapshot().is_empty());
    assert_eq!(s.last_update(), 0);
}

#[test]
fn snapshot_holds_exactly_the_last_update() {
    let mut s = ListenerSource::new("/map");
    assert!(s.update(Some(pts(&[(1, 1), (2, 2), (3, 3)])), 10));
    assert!(s.update(Some(pts(&[(9, 9)])), 20));
    assert_eq!(s.snapshot(), pts(&[(9, 9)]));
    assert_eq!(s.last_update(), 20);
}

#[test]
fn skipped_decode_keeps_previous_buffer() {
    let mut s = ListenerSource::new("/scan");
    s.update(Some(pts(&[(4, 5)])), 7);
    assert!(!s.update(None, 8));
    assert_eq!(s.snapshot(), pts(&[(4, 5)]));
    assert_eq!(s.last_update(), 7);
}
