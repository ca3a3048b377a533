//! Loader for rigged 2D puppet containers: the binary framing, the scene
//! graph held in an arena, and the draw order computed from it.

pub mod error;
pub mod reader;
pub mod texture;
pub mod container;
pub mod node;
pub mod scene;
pub mod distinct;
pub mod decimal;
pub mod json_data;
pub mod scene_json;
pub mod arena;
pub mod tree_model;
pub mod node_tree;
pub mod draw_order;
pub mod model;
