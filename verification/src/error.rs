use vstd::prelude::*;

verus! {

/// Errors produced by the graph topology layer.
#[derive(Debug, Clone, Copy, PartialEq, Eq, Structural)]
pub enum GraphError {
    /// A graph must have at least one node.
    EmptyGraph,
    /// `NodeOutOfRange(index, num_nodes)`.
    NodeOutOfRange(usize, usize),
    /// An embedding needs at least two nodes or dimensions; holds the count found.
    InsufficientNodesForEmbedding(usize),
    /// `DimensionOutOfRange(dim, num_dims)`.
    DimensionOutOfRange(usize, usize),
    /// `NoPath(start, end)`: the two nodes lie in different components.
    NoPath(usize, usize),
}

} // verus!
