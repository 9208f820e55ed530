use vstd::prelude::*;

use crate::error::GraphError;

verus! {

/// The dimensions of a spectral embedding: one row per node and one
/// column per retained eigenvector.
#[derive(Debug, Clone, Copy, PartialEq, Eq, Structural)]
pub struct EmbeddingShape {
    pub num_nodes: usize,
    pub num_dims: usize,
}

impl EmbeddingShape {
    /// The shape of the embedding of an `n`-node graph keeping `dimensions`
    /// eigenvectors (all of them when `None`, never more than `n`); an
    /// embedding needs at least two nodes.
    pub fn plan(n: usize, dimensions: Option<usize>) -> (r: Result<EmbeddingShape, GraphError>)
        ensures
            n < 2 ==> r == Err::<EmbeddingShape, GraphError>(GraphError::InsufficientNodesForEmbedding(n)),
            n >= 2 ==> r == Ok::<EmbeddingShape, GraphError>(EmbeddingShape {
                num_nodes: n,
                num_dims: match dimensions {
                    Some(d) => if d < n { d } else { n },
                    None => n,
                },
            }),
    {
        if n < 2 {
            return Err(GraphError::InsufficientNodesForEmbedding(n));
        }
        let wanted = match dimensions {
            Some(d) => d,
            None => n,
        };
        let num_dims = if wanted < n { wanted } else { n };
        Ok(EmbeddingShape { num_nodes: n, num_dims })
    }

    /// Whether the embedding keeps the Fiedler column, so that the
    /// algebraic connectivity is eigenvalue `1` rather than `0`.
    pub fn has_fiedler_column(&self) -> (r: bool)
        ensures
            r == (self.num_dims > 1),
    {
        self.num_dims > 1
    }

    /// Node index check shared by the accessors.
    pub fn check_node(&self, idx: usize) -> (r: Result<(), GraphError>)
        ensures
            idx < self.num_nodes ==> r is Ok,
            idx >= self.num_nodes ==> r == Err::<(), GraphError>(GraphError::NodeOutOfRange(idx, self.num_nodes)),
    {
        if idx >= self.num_nodes {
            Err(GraphError::NodeOutOfRange(idx, self.num_nodes))
        } else {
            Ok(())
        }
    }

    /// Checks of the spectral distances (commute-time and Fiedler): at
    /// least two columns, then both nodes in range, in that order.
    pub fn check_spectral_pair(&self, u: usize, v: usize) -> (r: Result<(), GraphError>)
        ensures
            self.num_dims < 2 ==> r == Err::<(), GraphError>(GraphError::InsufficientNodesForEmbedding(self.num_dims)),
            self.num_dims >= 2 && u >= self.num_nodes ==> r == Err::<(), GraphError>(GraphError::NodeOutOfRange(u, self.num_nodes)),
            self.num_dims >= 2 && u < self.num_nodes && v >= self.num_nodes ==> r == Err::<(), GraphError>(GraphError::NodeOutOfRange(v, self.num_nodes)),
            self.num_dims >= 2 && u < self.num_nodes && v < self.num_nodes ==> r is Ok,
    {
        if self.num_dims < 2 {
            return Err(GraphError::InsufficientNodesForEmbedding(self.num_dims));
        }
        self.check_node(u)?;
        self.check_node(v)
    }

    /// Checks of the Euclidean distance: both nodes in range.
    pub fn check_pair(&self, u: usize, v: usize) -> (r: Result<(), GraphError>)
        ensures
            u >= self.num_nodes ==> r == Err::<(), GraphError>(GraphError::NodeOutOfRange(u, self.num_nodes)),
            u < self.num_nodes && v >= self.num_nodes ==> r == Err::<(), GraphError>(GraphError::NodeOutOfRange(v, self.num_nodes)),
            u < self.num_nodes && v < self.num_nodes ==> r is Ok,
    {
        self.check_node(u)?;
        self.check_node(v)
    }

    /// Checks of a coordinate lookup: node first, then dimension.
    pub fn check_coordinate(&self, node: usize, dim: usize) -> (r: Result<(), GraphError>)
        ensures
            node >= self.num_nodes ==> r == Err::<(), GraphError>(GraphError::NodeOutOfRange(node, self.num_nodes)),
            node < self.num_nodes && dim >= self.num_dims ==> r == Err::<(), GraphError>(GraphError::DimensionOutOfRange(dim, self.num_dims)),
            node < self.num_nodes && dim < self.num_dims ==> r is Ok,
    {
        self.check_node(node)?;
        if dim >= self.num_dims {
            return Err(GraphError::DimensionOutOfRange(dim, self.num_dims));
        }
        Ok(())
    }

    /// Check of the Fiedler-vector accessor: at least two columns.
    pub fn check_fiedler(&self) -> (r: Result<(), GraphError>)
        ensures
            self.num_dims < 2 ==> r == Err::<(), GraphError>(GraphError::InsufficientNodesForEmbedding(self.num_dims)),
            self.num_dims >= 2 ==> r is Ok,
    {
        if self.num_dims < 2 {
            return Err(GraphError::InsufficientNodesForEmbedding(self.num_dims));
        }
        Ok(())
    }

    /// The column used by the Fiedler distance: the first whose eigenvalue
    /// is non-trivial (`nontrivial[k]`), or column `1` if none is.
    pub fn fiedler_column(&self, nontrivial: &Vec<bool>) -> (r: usize)
        requires
            self.num_dims >= 2,
            nontrivial@.len() == self.num_dims,
        ensures
            r < self.num_dims,
            (exists|k: int| 0 <= k < nontrivial@.len() && nontrivial@[k]) ==> nontrivial@[r as int]
                && forall|k: int| 0 <= k < r ==> !#[trigger] nontrivial@[k],
            !(exists|k: int| 0 <= k < nontrivial@.len() && nontrivial@[k]) ==> r == 1,
    {
        for k in 0..nontrivial.len()
            invariant
                nontrivial@.len() == self.num_dims,
                forall|j: int| 0 <= j < k ==> !#[trigger] nontrivial@[j],
        {
            if nontrivial[k] {
                return k;
            }
        }
        1
    }
}

} // verus!
