//! Forman-Ricci curvature of edges and hyperedges: high curvature marks an edge inside
//! a dense cluster (redundant), negative curvature a bridge between clusters.
use vstd::prelude::*;

verus! {

/// Curvature of one edge, with the bottleneck flag (`curvature < 0`).
#[derive(Debug)]
pub struct FormanCurvatureResult {
    pub edge_id: String,
    pub curvature: i128,
    pub is_bottleneck: bool,
}

pub struct FormanRicciCalculator;

/// F(e) = 4 - deg(u) - deg(v) + 3 * (# triangles containing e).
pub open spec fn spec_edge_curvature(deg_u: int, deg_v: int, triangles: int) -> int {
    4 - deg_u - deg_v + 3 * triangles
}

/// Sum of a sequence of degrees.
pub open spec fn degree_sum(s: Seq<usize>) -> int
    decreases s.len(),
{
    if s.len() == 0 {
        0
    } else {
        degree_sum(s.drop_last()) + s.last()
    }
}

/// F(h) = |h| * (4 - mean degree) = 4|h| - sum of degrees; 0 for an empty hyperedge.
pub open spec fn spec_hyperedge_curvature(degrees: Seq<usize>) -> int {
    if degrees.len() == 0 {
        0
    } else {
        4 * degrees.len() - degree_sum(degrees)
    }
}

impl FormanRicciCalculator {
    /// Forman-Ricci curvature F(e) of an edge e = (u, v), exactly.
    pub fn calculate_edge_curvature(deg_u: usize, deg_v: usize, triangles_count: usize) -> (r:
        i128)
        ensures
            r == spec_edge_curvature(deg_u as int, deg_v as int, triangles_count as int),
    {
        4 - (deg_u as i128) - (deg_v as i128) + 3 * (triangles_count as i128)
    }

    /// Forman-Ricci curvature F(h) of a hyperedge whose members have `node_degrees`.
    pub fn calculate_hyperedge_curvature(node_degrees: &[usize]) -> (r: i128)
        requires
            node_degrees@.len() <= isize::MAX,
        ensures
            r == spec_hyperedge_curvature(node_degrees@),
    {
        let size = node_degrees.len();
        if size == 0 {
            return 0;
        }
        let mut sum: i128 = 0;
        let mut i: usize = 0;
        while i < size
            invariant
                size == node_degrees@.len(),
                size <= isize::MAX,
                i <= size,
                sum == degree_sum(node_degrees@.subrange(0, i as int)),
                0 <= sum <= i * (usize::MAX as int),
            decreases size - i,
        {
            proof {
                assert(node_degrees@.subrange(0, i + 1).drop_last() =~= node_degrees@.subrange(
                    0,
                    i as int,
                ));
                assert(size <= isize::MAX);
                assert((i + 1) * (usize::MAX as int) == i * (usize::MAX as int) + usize::MAX)
                    by (nonlinear_arith);
                assert(i * (usize::MAX as int) <= (isize::MAX as int) * (usize::MAX as int)) by (nonlinear_arith)
                    requires i <= isize::MAX;
            }
            sum = sum + node_degrees[i] as i128;
            i = i + 1;
        }
        proof {
            assert(node_degrees@.subrange(0, size as int) =~= node_degrees@);
        }
        4 * (size as i128) - sum
    }
}

} // verus!
