//! The frame-tree viewer page: the forest of frames it shows, and the topic
//! settings it can clear and hand back for storing.
use vstd::prelude::*;
use crate::frame_tree::{roots_in_order, shows, shows_every_frame, tree_of, FrameGraph, TreeNode};

verus! {

/// The topic settings of the viewer.
pub struct TopicConfig {
    pub fixed_frame: String,
    pub robot_frame: String,
    pub laser_topics: Vec<String>,
    pub marker_array_topics: Vec<String>,
    pub marker_topics: Vec<String>,
    pub pose_stamped_topics: Vec<String>,
    pub pose_array_topics: Vec<String>,
    pub path_topics: Vec<String>,
    pub polygon_stamped_topics: Vec<String>,
}

/// The frame-tree viewer page.
pub struct TopicManager {
    frames: Vec<String>,
    tree: Vec<TreeNode>,
    config: TopicConfig,
    was_saved: bool,
}

impl TopicManager {
    pub closed spec fn spec_frames(&self) -> Seq<Seq<char>> {
        self.frames@.map_values(|s: String| s@)
    }

    pub closed spec fn spec_tree(&self) -> Seq<TreeNode> {
        self.tree@
    }

    pub closed spec fn spec_was_saved(&self) -> bool {
        self.was_saved
    }

    pub closed spec fn spec_config(&self) -> TopicConfig {
        self.config
    }

    /// A page that shows no frame yet and has not saved.
    pub fn new(config: TopicConfig) -> (r: TopicManager)
        ensures
            r.spec_frames().len() == 0,
            r.spec_tree().len() == 0,
            !r.spec_was_saved(),
            r.spec_config() == config,
    {
        let r = TopicManager { frames: Vec::new(), tree: Vec::new(), config, was_saved: false };
        assert(r.spec_frames() =~= Seq::<Seq<char>>::empty());
        r
    }

    /// The settings with every topic list emptied, to be stored; the page
    /// then counts as saved. The settings the page holds stay as they were.
    pub fn save(&mut self) -> (r: TopicConfig)
        ensures
            final(self).spec_was_saved(),
            final(self).spec_config() == old(self).spec_config(),
            final(self).spec_frames() == old(self).spec_frames(),
            final(self).spec_tree() == old(self).spec_tree(),
            r.fixed_frame@ == old(self).spec_config().fixed_frame@,
            r.robot_frame@ == old(self).spec_config().robot_frame@,
            r.laser_topics@.len() == 0,
            r.marker_array_topics@.len() == 0,
            r.marker_topics@.len() == 0,
            r.pose_stamped_topics@.len() == 0,
            r.pose_array_topics@.len() == 0,
            r.path_topics@.len() == 0,
            r.polygon_stamped_topics@.len() == 0,
    {
        let r = TopicConfig {
            fixed_frame: self.config.fixed_frame.clone(),
            robot_frame: self.config.robot_frame.clone(),
            laser_topics: Vec::new(),
            marker_array_topics: Vec::new(),
            marker_topics: Vec::new(),
            pose_stamped_topics: Vec::new(),
            pose_array_topics: Vec::new(),
            path_topics: Vec::new(),
            polygon_stamped_topics: Vec::new(),
        };
        self.was_saved = true;
        r
    }

    /// The names of the roots shown, in order.
    pub fn frames(&self) -> (r: &Vec<String>)
        ensures
            r@.map_values(|s: String| s@) == self.spec_frames(),
    {
        &self.frames
    }

    /// The forest shown.
    pub fn tree(&self) -> (r: &Vec<TreeNode>)
        ensures
            r@ == self.spec_tree(),
    {
        &self.tree
    }

    pub fn was_saved(&self) -> (r: bool)
        ensures
            r == self.spec_was_saved(),
    {
        self.was_saved
    }

    /// Rebuilds what the page shows from the current frame graph: the
    /// forest of frames, in which every frame stands, and the names of its
    /// roots in order.
    pub fn run(&mut self, graph: &FrameGraph)
        requires
            graph.wf(),
        ensures
            final(self).spec_was_saved() == old(self).spec_was_saved(),
            final(self).spec_config() == old(self).spec_config(),
            exists|rs: Seq<usize>|
                {
                    &&& roots_in_order(graph.spec_names(), graph.spec_children(), rs)
                    &&& shows_every_frame(graph.spec_children(), rs)
                    &&& final(self).spec_tree().len() == rs.len()
                    &&& final(self).spec_frames().len() == rs.len()
                    &&& forall|i: int| 0 <= i < rs.len() ==> final(self).spec_frames()[i] == graph.spec_names()[rs[i] as int]
                    &&& forall|i: int| 0 <= i < rs.len() ==> shows(
                        #[trigger] final(self).spec_tree()[i],
                        tree_of(graph.spec_children(), rs[i], Seq::empty()),
                        graph.spec_names(),
                    )
                },
    {
        let tree = graph.build_tree();
        let ghost rs = choose|rs: Seq<usize>|
            {
                &&& roots_in_order(graph.spec_names(), graph.spec_children(), rs)
                &&& shows_every_frame(graph.spec_children(), rs)
                &&& tree@.len() == rs.len()
                &&& forall|i: int| 0 <= i < rs.len() ==> shows(
                    #[trigger] tree@[i],
                    tree_of(graph.spec_children(), rs[i], Seq::empty()),
                    graph.spec_names(),
                )
            };
        let mut frames: Vec<String> = Vec::new();
        let mut i: usize = 0;
        while i < tree.len()
            invariant
                i <= tree@.len(),
                tree@.len() == rs.len(),
                roots_in_order(graph.spec_names(), graph.spec_children(), rs),
                shows_every_frame(graph.spec_children(), rs),
                forall|j: int| 0 <= j < rs.len() ==> shows(
                    #[trigger] tree@[j],
                    tree_of(graph.spec_children(), rs[j], Seq::empty()),
                    graph.spec_names(),
                ),
                frames@.len() == i,
                forall|j: int| 0 <= j < i ==> frames@[j]@ == graph.spec_names()[rs[j] as int],
            decreases tree@.len() - i,
        {
            assert(shows(tree@[i as int], tree_of(graph.spec_children(), rs[i as int], Seq::empty()), graph.spec_names()));
            frames.push(tree[i].name.clone());
            i = i + 1;
        }
        self.frames = frames;
        self.tree = tree;
        assert(forall|j: int| 0 <= j < rs.len() ==> self.spec_frames()[j] == graph.spec_names()[rs[j] as int]);
    }

    pub fn get_description(&self) -> (r: Vec<String>)
        ensures
            r@.len() == 1,
            r@[0]@ == "Topic manager can enable and disable displayed topics"@,
    {
        let mut r: Vec<String> = Vec::new();
        r.push("Topic manager can enable and disable displayed topics".to_owned());
        r
    }

    pub fn get_name(&self) -> (r: String)
        ensures
            r@ == "Topic Manager"@,
    {
        "Topic Manager".to_owned()
    }
}

} // verus!
