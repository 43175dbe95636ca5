//! Nodes: a caller-defined payload together with the bookkeeping of its
//! relations to other nodes.

use vstd::prelude::*;
use crate::errors::LatticeError;
use crate::ids::{
    add_id, add_unique, contains_id, dedup, id_set, lemma_add_unique_props, lemma_dedup_props,
    lemma_id_set_empty, lemma_push_to_set, remove_id, str_seq,
};
use crate::view::{IdSeq, NodeView};

verus! {

/// The capability a payload must expose to live inside a lattice: a stable
/// unique identifier and a completion test.  The two spec functions name the
/// values the executable queries return, so that contracts can speak of them.
pub trait NodeType: Sized {
    /// The identifier, as an abstract value.  A verified payload overrides
    /// this with the value its `uuid` returns; the default stands in for
    /// payloads written outside the verifier.
    open spec fn spec_uuid(&self) -> IdSeq {
        Seq::empty()
    }

    /// The completion status, as an abstract value.  A verified payload
    /// overrides this with the value its `is_completed` returns.
    open spec fn spec_completed(&self) -> bool {
        false
    }

    /// Returns the unique identifier of the payload.  It must not change for
    /// the lifetime of the lattice that holds the node.
    fn uuid(&self) -> (r: String)
        ensures
            r@ == self.spec_uuid(),
    ;

    /// Returns whether the payload considers itself complete.
    fn is_completed(&self) -> (r: bool)
        ensures
            r == self.spec_completed(),
    ;
}

/// One node of a lattice: a payload plus the identifiers of the nodes it
/// still waits on, the nodes that wait on it, and the former prerequisites
/// that have been satisfied.
pub struct BasicNode<T: NodeType> {
    base_data: T,
    depends_on: Vec<String>,
    required_by: Vec<String>,
    fulfilled_by: Vec<String>,
}

impl<T: NodeType> View for BasicNode<T> {
    type V = NodeView;

    closed spec fn view(&self) -> NodeView {
        NodeView {
            id: self.base_data.spec_uuid(),
            complete: self.base_data.spec_completed(),
            deps: id_set(self.depends_on@),
            reqs: str_seq(self.required_by@),
            fulf: id_set(self.fulfilled_by@),
        }
    }
}

/// A node wrapping a payload is itself a payload, so lattices can nest: its
/// identifier is the payload's, and it is complete when the payload is.
impl<T: NodeType> NodeType for BasicNode<T> {
    closed spec fn spec_uuid(&self) -> IdSeq {
        self.base_data.spec_uuid()
    }

    closed spec fn spec_completed(&self) -> bool {
        self.base_data.spec_completed()
    }

    fn uuid(&self) -> (r: String) {
        self.base_data.uuid()
    }

    fn is_completed(&self) -> (r: bool) {
        self.base_data.is_completed()
    }
}

/// A well-formed node has a well-formed abstract state.
pub proof fn lemma_node_wf<T: NodeType>(n: &BasicNode<T>)
    requires
        n.wf(),
    ensures
        n@.wf(),
{
}

/// What a node shows of itself as a payload agrees with its abstract state.
pub proof fn lemma_node_as_payload<T: NodeType>(n: &BasicNode<T>)
    ensures
        n.spec_uuid() == n@.id,
        n.spec_completed() == n@.complete,
{
}

impl<T: NodeType> BasicNode<T> {
    /// Well-formedness of the concrete lists: no identifier is recorded
    /// twice, and no prerequisite is both unmet and satisfied.
    pub closed spec fn wf(&self) -> bool {
        &&& self@.wf()
        &&& str_seq(self.depends_on@).no_duplicates()
        &&& str_seq(self.fulfilled_by@).no_duplicates()
    }

    /// Creates a node around a payload, with the given prerequisites and
    /// dependents; duplicates in either list are dropped.
    pub fn new(base_data: T, depends_on: Vec<String>, required_by: Vec<String>) -> (r: Self)
        ensures
            r.wf(),
            r@.id == base_data.spec_uuid(),
            r@.complete == base_data.spec_completed(),
            r@.deps == id_set(depends_on@),
            r@.reqs == dedup(str_seq(required_by@)),
            r@.fulf == Set::<IdSeq>::empty(),
    {
        let mut s = BasicNode {
            base_data,
            depends_on: Vec::new(),
            required_by: Vec::new(),
            fulfilled_by: Vec::new(),
        };
        proof {
            assert(str_seq(s.depends_on@) =~= Seq::<IdSeq>::empty());
            assert(str_seq(s.required_by@) =~= Seq::<IdSeq>::empty());
            assert(str_seq(s.fulfilled_by@) =~= Seq::<IdSeq>::empty());
            assert(id_set(s.fulfilled_by@) =~= Set::<IdSeq>::empty());
            assert(str_seq(depends_on@).take(0) =~= Seq::<IdSeq>::empty());
            assert(str_seq(required_by@).take(0) =~= Seq::<IdSeq>::empty());
        }
        let mut i: usize = 0;
        while i < depends_on.len()
            invariant
                i <= depends_on.len(),
                str_seq(s.depends_on@).no_duplicates(),
                str_seq(s.depends_on@).to_set() == str_seq(depends_on@).take(i as int).to_set(),
                s.base_data == base_data,
                s.required_by@ == Seq::<String>::empty(),
                s.fulfilled_by@ == Seq::<String>::empty(),
            decreases depends_on.len() - i,
        {
            let ghost prefix = str_seq(depends_on@).take(i as int);
            let ghost before = str_seq(s.depends_on@);
            add_id(&mut s.depends_on, depends_on[i].clone());
            proof {
                lemma_add_unique_props(before, depends_on@[i as int]@);
                lemma_push_to_set(prefix, depends_on@[i as int]@);
                assert(str_seq(depends_on@).take(i + 1) =~= prefix.push(depends_on@[i as int]@));
            }
            i += 1;
        }
        proof {
            assert(str_seq(depends_on@).take(depends_on@.len() as int) =~= str_seq(depends_on@));
        }
        let mut j: usize = 0;
        while j < required_by.len()
            invariant
                j <= required_by.len(),
                str_seq(s.required_by@) == dedup(str_seq(required_by@).take(j as int)),
                s.base_data == base_data,
                id_set(s.depends_on@) == id_set(depends_on@),
                str_seq(s.depends_on@).no_duplicates(),
                s.fulfilled_by@ == Seq::<String>::empty(),
            decreases required_by.len() - j,
        {
            let ghost prefix = str_seq(required_by@).take(j as int);
            add_id(&mut s.required_by, required_by[j].clone());
            proof {
                let next = str_seq(required_by@).take(j + 1);
                assert(next.drop_last() =~= prefix);
                assert(next.last() == required_by@[j as int]@);
                assert(str_seq(s.required_by@) == add_unique(dedup(prefix), next.last()));
            }
            j += 1;
        }
        proof {
            assert(str_seq(required_by@).take(required_by@.len() as int) =~= str_seq(
                required_by@,
            ));
            lemma_dedup_props(str_seq(required_by@));
            assert(s@.deps.disjoint(s@.fulf)) by {
                assert(id_set(s.fulfilled_by@) =~= Set::<IdSeq>::empty());
            }
        }
        s
    }

    /// Whether anything blocks this node: an unmet prerequisite or an
    /// incomplete payload.  This is the negation of being ready to fulfill.
    pub fn is_pending(&self) -> (r: bool)
        ensures
            r == !self@.ready(),
    {
        proof {
            lemma_id_set_empty(self.depends_on@);
        }
        !self.depends_on.is_empty() || !self.is_completed()
    }

    /// Whether the node still has work in it: a complete payload or at least
    /// one unmet prerequisite.
    pub fn is_active(&self) -> (r: bool)
        ensures
            r == (self@.complete || !self@.deps.is_empty()),
    {
        proof {
            lemma_id_set_empty(self.depends_on@);
        }
        !(!self.is_completed() && self.depends_on.is_empty())
    }

    /// The identifiers of the prerequisites not yet satisfied.
    pub fn depends_on(&self) -> (r: &Vec<String>)
        ensures
            id_set(r@) == self@.deps,
            self.wf() ==> str_seq(r@).no_duplicates(),
    {
        &self.depends_on
    }

    /// The identifiers of the nodes that list this node as a prerequisite.
    pub fn required_by(&self) -> (r: &Vec<String>)
        ensures
            str_seq(r@) == self@.reqs,
    {
        &self.required_by
    }

    /// The identifiers of the former prerequisites that have been satisfied.
    pub fn fulfilled_by(&self) -> (r: &Vec<String>)
        ensures
            id_set(r@) == self@.fulf,
    {
        &self.fulfilled_by
    }

    /// Registers a prerequisite edge; recording an edge that is already
    /// present, unmet or satisfied, changes nothing.
    pub fn add_depends_on(&mut self, key: String)
        requires
            old(self).wf(),
        ensures
            final(self).wf(),
            final(self)@ == old(self)@.with_dep(key@),
    {
        if !contains_id(&self.fulfilled_by, &key) {
            let ghost before = str_seq(self.depends_on@);
            add_id(&mut self.depends_on, key);
            proof {
                lemma_add_unique_props(before, key@);
                assert(self@ =~= old(self)@.with_dep(key@));
            }
        }
    }

    /// Registers a dependent; recording one that is already present changes
    /// nothing.
    pub fn add_required_by(&mut self, key: String)
        requires
            old(self).wf(),
        ensures
            final(self).wf(),
            final(self)@ == old(self)@.with_req(key@),
    {
        let ghost before = str_seq(self.required_by@);
        add_id(&mut self.required_by, key);
        proof {
            lemma_add_unique_props(before, key@);
            assert(self@ =~= old(self)@.with_req(key@));
        }
    }

    /// Marks the prerequisite `key` as satisfied, moving it from the unmet to
    /// the satisfied collection.  Fails when `key` is not an unmet
    /// prerequisite, whether never registered or already satisfied.
    pub fn depend_fulfilled(&mut self, key: String) -> (r: Result<(), LatticeError>)
        requires
            old(self).wf(),
        ensures
            final(self).wf(),
            old(self)@.deps.contains(key@) ==> r == Ok::<(), LatticeError>(())
                && final(self)@ == old(self)@.satisfied(key@),
            !old(self)@.deps.contains(key@) ==> r == Err::<(), LatticeError>(
                LatticeError::UnknownDependency,
            ) && final(self)@ == old(self)@,
    {
        if remove_id(&mut self.depends_on, &key) {
            let ghost before = str_seq(self.fulfilled_by@);
            add_id(&mut self.fulfilled_by, key);
            proof {
                lemma_add_unique_props(before, key@);
                assert(self@ =~= old(self)@.satisfied(key@));
            }
            Ok(())
        } else {
            Err(LatticeError::UnknownDependency)
        }
    }

    /// Replaces the payload.  The replacement must carry the same identifier
    /// as the payload it replaces; otherwise nothing changes and the call
    /// fails.
    pub fn update(&mut self, t: T) -> (r: Result<(), LatticeError>)
        ensures
            old(self).wf() ==> final(self).wf(),
            t.spec_uuid() == old(self)@.id ==> r == Ok::<(), LatticeError>(())
                && final(self)@ == old(self)@.with_complete(t.spec_completed()),
            t.spec_uuid() != old(self)@.id ==> r == Err::<(), LatticeError>(
                LatticeError::IdentityMismatch,
            ) && final(self)@ == old(self)@,
    {
        let mine = self.base_data.uuid();
        let theirs = t.uuid();
        if mine.eq(&theirs) {
            self.base_data = t;
            proof {
                assert(self@ =~= old(self)@.with_complete(t.spec_completed()));
            }
            Ok(())
        } else {
            Err(LatticeError::IdentityMismatch)
        }
    }
}

} // verus!
