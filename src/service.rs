use vstd::prelude::*;
use vstd::string::StringSliceAdditionalSpecFns;

use crate::error::GraphError;
use crate::io::{coordinates_of, edges_of, parse_edges, parse_output};
use crate::plane_graph::{all_edges_in_range, edges_in_range, PlaneGraph};

verus! {

/// Assembles a graph from the text of an edge-list file and the text that the
/// embedding solver printed for it.
///
/// A malformed edge list is a `Format` error; malformed solver output is the
/// solver's fault, an `ExternalProcess` error. The vertex count is the number
/// of positions the solver gave.
pub fn build_plane_graph_from_file(edge_list: &str, solver_output: &str) -> (r: Result<
    PlaneGraph,
    GraphError,
>)
    ensures
        match (edges_of(edge_list.spec_bytes()), coordinates_of(solver_output.spec_bytes())) {
            (None, _) => r == Err::<PlaneGraph, GraphError>(GraphError::Format),
            (Some(_), None) => r == Err::<PlaneGraph, GraphError>(GraphError::ExternalProcess),
            (Some(es), Some(cs)) => if cs.len() > u32::MAX {
                r == Err::<PlaneGraph, GraphError>(GraphError::TooManyVertices)
            } else if !all_edges_in_range(es, cs.len() as int) {
                r == Err::<PlaneGraph, GraphError>(GraphError::Index)
            } else {
                &&& r is Ok
                &&& r->Ok_0.n == cs.len()
                &&& r->Ok_0.edges@ == es
                &&& r->Ok_0.embedding@ == cs
            },
        },
        r is Ok ==> r->Ok_0.wf(),
{
    let edges = match parse_edges(edge_list) {
        Ok(e) => e,
        Err(_) => return Err(GraphError::Format),
    };
    let embedding = match parse_output(solver_output) {
        Ok(c) => c,
        Err(_) => return Err(GraphError::ExternalProcess),
    };
    if embedding.len() > 0xffff_ffffusize {
        return Err(GraphError::TooManyVertices);
    }
    if !edges_in_range(&edges, embedding.len()) {
        return Err(GraphError::Index);
    }
    Ok(PlaneGraph { n: embedding.len() as u32, edges, embedding })
}

} // verus!
