//! The mathematical model: what a node and a lattice are, as plain values.

use vstd::prelude::*;

verus! {

/// The identifier of a node: the character sequence of its `String` form.
pub type IdSeq = Seq<char>;

/// The abstract state of one node: the payload's identity and completion
/// status, and the three identifier collections that record its relations.
#[verifier::ext_equal]
pub ghost struct NodeView {
    /// Identifier of the payload the node wraps.
    pub id: IdSeq,
    /// Whether the payload reports itself complete.
    pub complete: bool,
    /// Prerequisites not yet satisfied.
    pub deps: Set<IdSeq>,
    /// Nodes that list this node as a prerequisite, in registration order.
    pub reqs: Seq<IdSeq>,
    /// Former prerequisites that have since been satisfied.
    pub fulf: Set<IdSeq>,
}

impl NodeView {
    /// A node is ready to be fulfilled when nothing blocks it: no unmet
    /// prerequisite and a complete payload.
    pub open spec fn ready(self) -> bool {
        self.deps.is_empty() && self.complete
    }

    /// Unmet and satisfied prerequisites never overlap, and each dependent is
    /// recorded once.
    pub open spec fn wf(self) -> bool {
        &&& self.deps.disjoint(self.fulf)
        &&& self.reqs.no_duplicates()
    }

    /// Registering a prerequisite edge: a no-op when the edge is already
    /// recorded, whether still unmet or already satisfied.
    pub open spec fn with_dep(self, k: IdSeq) -> NodeView {
        if self.deps.contains(k) || self.fulf.contains(k) {
            self
        } else {
            NodeView { deps: self.deps.insert(k), ..self }
        }
    }

    /// Registering a dependent: a no-op when already recorded.
    pub open spec fn with_req(self, k: IdSeq) -> NodeView {
        if self.reqs.contains(k) {
            self
        } else {
            NodeView { reqs: self.reqs.push(k), ..self }
        }
    }

    /// Satisfying the prerequisite `k`: it moves from the unmet to the
    /// satisfied collection.  Meaningful only when `k` is currently unmet.
    pub open spec fn satisfied(self, k: IdSeq) -> NodeView {
        NodeView { deps: self.deps.remove(k), fulf: self.fulf.insert(k), ..self }
    }

    /// Replacing the payload keeps the identifier and every relation.
    pub open spec fn with_complete(self, c: bool) -> NodeView {
        NodeView { complete: c, ..self }
    }
}

/// The abstract state of a lattice: every node, keyed by its identifier and
/// partitioned into the pending and the fulfilled collection.
#[verifier::ext_equal]
pub ghost struct LatticeView {
    pub pending: Map<IdSeq, NodeView>,
    pub fulfilled: Map<IdSeq, NodeView>,
}

impl LatticeView {
    /// Structural soundness: finitely many nodes, no identifier present in
    /// both collections, every node well formed and stored under its own
    /// identifier.
    pub open spec fn inv(self) -> bool {
        &&& self.pending.dom().finite()
        &&& self.fulfilled.dom().finite()
        &&& self.pending.dom().disjoint(self.fulfilled.dom())
        &&& forall|k: IdSeq|
            self.pending.dom().contains(k) ==> (#[trigger] self.pending[k]).wf()
                && self.pending[k].id == k
        &&& forall|k: IdSeq|
            self.fulfilled.dom().contains(k) ==> (#[trigger] self.fulfilled[k]).wf()
                && self.fulfilled[k].id == k
    }

    /// Whether the identifier names a node of the lattice, in either collection.
    pub open spec fn has_node(self, k: IdSeq) -> bool {
        self.pending.dom().contains(k) || self.fulfilled.dom().contains(k)
    }

    /// Every fulfilled node is ready.
    pub open spec fn fulfilled_ready(self) -> bool {
        forall|k: IdSeq|
            self.fulfilled.dom().contains(k) ==> (#[trigger] self.fulfilled[k]).ready()
    }

    /// Every pending node is blocked, that is, not ready.
    pub open spec fn pending_blocked(self) -> bool {
        forall|k: IdSeq|
            self.pending.dom().contains(k) ==> !(#[trigger] self.pending[k]).ready()
    }

    /// The node stored under `k`, wherever it resides.
    pub open spec fn node_at(self, k: IdSeq) -> NodeView {
        if self.pending.dom().contains(k) {
            self.pending[k]
        } else {
            self.fulfilled[k]
        }
    }

    /// Placement agrees with readiness on every node: a node is in the
    /// fulfilled collection exactly when nothing blocks it.
    pub open spec fn settled(self) -> bool {
        self.fulfilled_ready() && self.pending_blocked()
    }

    /// The placement rule: a blocked node goes to `pending`, a ready one to
    /// `fulfilled`.
    pub open spec fn place(self, n: NodeView) -> LatticeView {
        if !n.ready() {
            LatticeView { pending: self.pending.insert(n.id, n), ..self }
        } else {
            LatticeView { fulfilled: self.fulfilled.insert(n.id, n), ..self }
        }
    }
}

} // verus!
