//! A dependency-fulfillment engine.
//!
//! A lattice owns a collection of nodes, each wrapping a caller-defined
//! payload and connected to other nodes by directed depends-on edges.  A node
//! is *pending* while it waits on unmet prerequisites or on an incomplete
//! payload, and *fulfilled* once nothing blocks it; fulfilling one node
//! satisfies the matching edge in every node that waited on it and cascades
//! through everything that thereby becomes ready.  Edges may be registered
//! after construction, including against already-fulfilled nodes, which are
//! then demoted back to pending.

pub mod errors;
pub mod ids;
pub mod lattice;
pub mod laws;
pub mod node;
pub mod transition;
pub mod view;

pub use errors::LatticeError;
pub use lattice::BasicLattice;
pub use node::BasicNode;
pub use node::NodeType;
