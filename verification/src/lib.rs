//! An editable undirected graph on the integer plane, with cycle detection
//! and spanning trees ordered by the distance between the nodes.

pub mod adjacency;
pub mod circle;
pub mod connectivity;
pub mod count;
pub mod cycle;
pub mod editor;
pub mod event;
pub mod forest;
pub mod geometry;
pub mod graph;
pub mod laws;
pub mod lightest;
pub mod node;
pub mod response;
pub mod state;
pub mod tree;
pub mod vertex;
