use termviz::frame_tree::{name_precedes, FrameGraph, TreeNode};
use termviz::topic_manager::{TopicConfig, TopicManager};

fn describe(n: &TreeNode) -> String {
    if n.children.is_empty() {
        n.name.clone()
    } else {
        let inner: Vec<String> = n.children.iter().map(|c| describe(c)).collect();
        format!("{} -> {{{}}}", n.name, inner.join(", "))
    }
}

fn forest(g: &FrameGraph) -> Vec<String> {
    g.build_tree().iter().map(describe).collect()
}

#[test]
fn single_root_tree() {
    let mut g = FrameGraph::new();
    g.add_edge("A", "B");
    g.add_edge("A", "C");
    g.add_edge("B", "D");
    assert_eq!(g.root_frames(), vec![0]);
    assert_eq!(forest(&g), vec!["A -> {B -> {D}, C}".to_string()]);
}

#[test]
fn roots_are_ordered_by_name() {
    let mut g = FrameGraph::new();
    g.add_edge("odom", "base_link");
    g.add_edge("map", "odom");
    g.add_edge("camera", "lens");
    g.add_edge("base_link", "laser");
    assert_eq!(forest(&g), vec!["camera -> {lens}".to_string(), "map -> {odom -> {base_link -> {laser}}}".to_string()]);
}

#[test]
fn repeated_edge_is_listed_once() {
    let mut g = FrameGraph::new();
    assert_eq!(g.add_edge("A", "B"), (0, 1));
    assert_eq!(g.add_edge("A", "B"), (0, 1));
    assert_eq!(g.len(), 2);
    assert_eq!(forest(&g), vec!["A -> {B}".to_string()]);
}

#[test]
fn cycle_below_a_root_is_cut() {
    let mut g = FrameGraph::new();
    g.add_edge("R", "X");
    g.add_edge("X", "Y");
    g.add_edge("Y", "X");
    g.add_edge("Y", "Y");
    assert_eq!(forest(&g), vec!["R -> {X -> {Y}}".to_string()]);
}

#[test]
fn frames_of_a_pure_cycle_become_roots() {
    let mut g = FrameGraph::new();
    g.add_edge("B", "A");
    g.add_edge("A", "B");
    assert_eq!(g.root_frames(), vec![1, 0]);
    assert_eq!(forest(&g), vec!["A -> {B}".to_string(), "B -> {A}".to_string()]);
}

#[test]
fn unreached_cycle_and_what_hangs_below_become_roots() {
    let mut g = FrameGraph::new();
    g.add_edge("R", "X");
    g.add_edge("D", "C");
    g.add_edge("C", "D");
    g.add_edge("D", "E");
    assert_eq!(
        forest(&g),
        vec![
            "C -> {D -> {E}}".to_string(),
            "D -> {C, E}".to_string(),
            "E".to_string(),
            "R -> {X}".to_string(),
        ]
    );
}

#[test]
fn self_loop_frame_becomes_root() {
    let mut g = FrameGraph::new();
    g.add_edge("loop", "loop");
    assert_eq!(forest(&g), vec!["loop".to_string()]);
}

#[test]
fn empty_graph_gives_empty_forest() {
    assert!(FrameGraph::new().build_tree().is_empty());
}

#[test]
fn find_locates_registered_frames() {
    let mut g = FrameGraph::new();
    g.add_edge("map", "odom");
    assert_eq!(g.find("odom"), Some(1));
    assert_eq!(g.find("base_link"), None);
    assert_eq!(g.name(0), "map");
}

#[test]
fn name_order_is_lexicographic() {
    assert!(name_precedes("a", "b"));
    assert!(name_precedes("ab", "abc"));
    assert!(!name_precedes("abc", "ab"));
    assert!(!name_precedes("same", "same"));
    assert!(name_precedes("", "x"));
}

#[test]
fn tree_node_starts_without_children() {
    let n = TreeNode::new("base_link");
    assert_eq!(n.name, "base_link");
    assert!(n.children.is_empty());
}

fn config() -> TopicConfig {
    TopicConfig {
        fixed_frame: "map".to_string(),
        robot_frame: "base_link".to_string(),
        laser_topics: vec!["/scan".to_string()],
        marker_array_topics: vec!["/markers".to_string()],
        marker_topics: vec![],
        pose_stamped_topics: vec!["/goal".to_string()],
        pose_array_topics: vec![],
        path_topics: vec!["/plan".to_string()],
        polygon_stamped_topics: vec![],
    }
}

#[test]
fn topic_manager_shows_root_names() {
    let mut g = FrameGraph::new();
    g.add_edge("world", "map");
    g.add_edge("cam", "lens");
    let mut m = TopicManager::new(config());
    m.run(&g);
    assert_eq!(m.frames(), &vec!["cam".to_string(), "world".to_string()]);
    assert_eq!(m.tree().len(), 2);
    assert_eq!(describe(&m.tree()[1]), "world -> {map}");
    assert_eq!(m.get_name(), "Topic Manager");
    assert_eq!(m.get_description(), vec!["Topic manager can enable and disable displayed topics".to_string()]);
    assert!(!m.was_saved());
}

#[test]
fn save_clears_topic_lists() {
    let mut m = TopicManager::new(config());
    let saved = m.save();
    assert!(m.was_saved());
    assert_eq!(saved.fixed_frame, "map");
    assert_eq!(saved.robot_frame, "base_link");
    assert!(saved.laser_topics.is_empty());
    assert!(saved.marker_array_topics.is_empty());
    assert!(saved.pose_stamped_topics.is_empty());
    assert!(saved.path_topics.is_empty());
}
