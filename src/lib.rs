//! Reading planar-graph embeddings from text and laying them out as drawing
//! commands on a grid.
pub mod draw;
pub mod error;
pub mod io;
pub mod plane_graph;
pub mod service;

pub use draw::{draw_embedding, draw_vertex, Color, DrawOp, DrawPlan, Point, MARKER_RADIUS, VERTEX_RADIUS};
pub use error::GraphError;
pub use io::{parse_edges, parse_output};
pub use plane_graph::{edges_in_range, PlaneGraph};
pub use service::build_plane_graph_from_file;
