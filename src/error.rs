use vstd::prelude::*;

verus! {

/// Why parsing, assembling or rendering a graph failed.
///
/// Every error ends the current attempt: nothing is drawn once one is found.
#[derive(Clone, Copy, Debug, PartialEq, Eq, Structural)]
pub enum GraphError {
    /// A line of an edge list or of solver output is not two unsigned integers.
    Format,
    /// An edge names a vertex outside `1..=n`.
    Index,
    /// Fewer than three vertices: the grid spacing would divide by zero or less.
    DegenerateGeometry,
    /// The embedding solver could not be run, failed, or printed something unreadable.
    ExternalProcess,
    /// More vertices than a `u32` vertex id can name.
    TooManyVertices,
}

/// The description of each error.
pub open spec fn message_of(e: GraphError) -> Seq<char> {
    match e {
        GraphError::Format => "malformed line: expected two unsigned integers"@,
        GraphError::Index => "edge endpoint outside the vertex range"@,
        GraphError::DegenerateGeometry => "fewer than three vertices: no grid spacing"@,
        GraphError::ExternalProcess => "the embedding solver failed"@,
        GraphError::TooManyVertices => "vertex count beyond the largest u32 id"@,
    }
}

impl GraphError {
    /// A short human-readable description of the error, different for each kind.
    pub fn message(&self) -> (r: String)
        ensures
            r@ == message_of(*self),
            r@.len() > 0,
            forall|e: GraphError| e != *self ==> r@ != message_of(e),
    {
        proof {
            reveal_strlit("malformed line: expected two unsigned integers");
            reveal_strlit("edge endpoint outside the vertex range");
            reveal_strlit("fewer than three vertices: no grid spacing");
            reveal_strlit("the embedding solver failed");
            reveal_strlit("vertex count beyond the largest u32 id");
            assert forall|e: GraphError| e != *self implies message_of(*self) != message_of(e) by {
                assert(message_of(*self)[0] != message_of(e)[0]);
            }
        }
        proof {
            broadcast use vstd::string::to_string_from_display_ensures_for_str;
        }
        match self {
            GraphError::Format => "malformed line: expected two unsigned integers".to_string(),
            GraphError::Index => "edge endpoint outside the vertex range".to_string(),
            GraphError::DegenerateGeometry => "fewer than three vertices: no grid spacing".to_string(),
            GraphError::ExternalProcess => "the embedding solver failed".to_string(),
            GraphError::TooManyVertices => "vertex count beyond the largest u32 id".to_string(),
        }
    }
}

} // verus!
