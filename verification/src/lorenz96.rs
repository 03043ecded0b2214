//! Cyclic neighbourhood of the Lorenz-96 model.
//!
//! Component `i` of the model evolves as
//! `dx_i/dt = (x_{i+1} - x_{i-2}) x_{i-1} - x_i + F`, where indices wrap
//! around the ring of `DIMENSION_SIZE` components.
use vstd::prelude::*;

verus! {

/// Number of components of the Lorenz-96 state.
pub const DIMENSION_SIZE: usize = 40usize;

/// Indices of the three neighbours of one component on the ring.
#[derive(Clone, Copy, Debug, PartialEq, Eq, Structural)]
pub struct Neighbors {
    /// Index of `x_{i+1}`.
    pub p1: usize,
    /// Index of `x_{i-1}`.
    pub m1: usize,
    /// Index of `x_{i-2}`.
    pub m2: usize,
}

/// `(i + k) mod DIMENSION_SIZE` for a possibly negative shift `k`.
pub open spec fn ring_index(i: int, k: int) -> int {
    (i + k) % (DIMENSION_SIZE as int)
}

/// The neighbours that component `dim_idx` reads, as mathematical indices.
pub open spec fn spec_neighbors(dim_idx: int) -> (int, int, int) {
    (ring_index(dim_idx, 1), ring_index(dim_idx, -1), ring_index(dim_idx, -2))
}

/// Neighbour indices of component `dim_idx`, wrapping around both ends.
pub fn neighbor_indices(dim_idx: usize) -> (n: Neighbors)
    requires
        dim_idx < DIMENSION_SIZE,
    ensures
        n.p1 < DIMENSION_SIZE,
        n.m1 < DIMENSION_SIZE,
        n.m2 < DIMENSION_SIZE,
        (n.p1 as int, n.m1 as int, n.m2 as int) == spec_neighbors(dim_idx as int),
{
    let dim_idx_p1 = dim_idx + 1;
    if dim_idx_p1 == 1 {
        Neighbors { p1: dim_idx_p1, m1: DIMENSION_SIZE - 1, m2: DIMENSION_SIZE - 2 }
    } else if dim_idx_p1 == 2 {
        Neighbors { p1: dim_idx_p1, m1: dim_idx - 1, m2: DIMENSION_SIZE - 1 }
    } else if dim_idx_p1 == DIMENSION_SIZE {
        Neighbors { p1: 0, m1: dim_idx - 1, m2: dim_idx - 2 }
    } else {
        Neighbors { p1: dim_idx_p1, m1: dim_idx - 1, m2: dim_idx - 2 }
    }
}

/// The neighbourhood is a ring: each component is the right neighbour of
/// its left neighbour, the left neighbour of its right neighbour, and the
/// left neighbour of its left neighbour is its second left neighbour; the
/// component and its three neighbours are four different components.
pub proof fn lemma_ring_neighbors(i: int)
    requires
        0 <= i < DIMENSION_SIZE,
    ensures
        spec_neighbors(spec_neighbors(i).1).0 == i,
        spec_neighbors(spec_neighbors(i).0).1 == i,
        spec_neighbors(spec_neighbors(i).1).1 == spec_neighbors(i).2,
        spec_neighbors(i).0 != i,
        spec_neighbors(i).1 != i,
        spec_neighbors(i).2 != i,
        spec_neighbors(i).0 != spec_neighbors(i).1,
        spec_neighbors(i).0 != spec_neighbors(i).2,
        spec_neighbors(i).1 != spec_neighbors(i).2,
{
}

} // verus!
