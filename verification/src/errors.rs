use vstd::prelude::*;

verus! {

/// The ways an operation on a lattice or on one of its nodes can fail.
#[derive(Clone, Copy, Debug, PartialEq, Eq, Structural)]
pub enum LatticeError {
    /// The identifier is absent from the collection the operation searched.
    NotFound,
    /// An attempt to satisfy a dependency edge that is not registered as unmet.
    UnknownDependency,
    /// A `required_by` back-edge pointed at a node that is not pending; the
    /// two sides of the graph's edges are out of step.
    InconsistentGraph,
    /// A replacement payload carried a different identifier than the node
    /// whose payload it was to replace.
    IdentityMismatch,
}

} // verus!
