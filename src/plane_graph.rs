use vstd::prelude::*;

verus! {

/// A graph with an integer grid position for each vertex.
///
/// Vertices are numbered from 1; `embedding[i]` is the position of vertex `i + 1`.
#[derive(Clone, Debug)]
pub struct PlaneGraph {
    pub n: u32,
    pub edges: Vec<(u32, u32)>,
    pub embedding: Vec<(u32, u32)>,
}

/// Both endpoints of `e` name one of the vertices `1..=n`.
pub open spec fn edge_in_range(e: (u32, u32), n: int) -> bool {
    1 <= e.0 <= n && 1 <= e.1 <= n
}

pub open spec fn all_edges_in_range(edges: Seq<(u32, u32)>, n: int) -> bool {
    forall|k: int| 0 <= k < edges.len() ==> edge_in_range(#[trigger] edges[k], n)
}

impl PlaneGraph {
    /// The vertex count agrees with the embedding, and every edge names
    /// vertices that have a position.
    pub open spec fn wf(&self) -> bool {
        &&& self.n as int == self.embedding@.len()
        &&& all_edges_in_range(self.edges@, self.embedding@.len() as int)
    }
}

/// Whether every edge of `edges` names vertices in `1..=n`.
pub fn edges_in_range(edges: &Vec<(u32, u32)>, n: usize) -> (r: bool)
    ensures
        r == all_edges_in_range(edges@, n as int),
{
    let mut k: usize = 0;
    while k < edges.len()
        invariant
            0 <= k <= edges@.len(),
            all_edges_in_range(edges@.subrange(0, k as int), n as int),
        decreases edges@.len() - k,
    {
        let (a, b) = edges[k];
        if a < 1 || a as usize > n || b < 1 || b as usize > n {
            assert(!edge_in_range(edges@[k as int], n as int));
            return false;
        }
        assert forall|j: int| 0 <= j < k + 1 implies edge_in_range(
            #[trigger] edges@.subrange(0, k + 1)[j],
            n as int,
        ) by {
            if j < k {
                assert(edges@.subrange(0, k + 1)[j] == edges@.subrange(0, k as int)[j]);
            }
        }
        k += 1;
    }
    assert(edges@.subrange(0, k as int) =~= edges@);
    true
}

} // verus!
