//! Verified core of a terminal viewer for a mobile robot: fixed-point planar
//! geometry, the viewport model, listener buffers, the frame tree and the
//! composition of one rendered scene.
pub mod frame_tree;
pub mod geometry;
pub mod listener;
pub mod scene;
pub mod topic_manager;
pub mod viewer;
