//! The lattice: the owner of every node, partitioned into a pending and a
//! fulfilled collection, with the cascading fulfillment algorithm and the
//! dynamic edge-registration operations.

use vstd::prelude::*;
use crate::errors::LatticeError;
use crate::ids::{lemma_concat_unique, lemma_push_to_set, lemma_rows_replace, str_seq};
use crate::node::{lemma_node_as_payload, BasicNode, NodeType};
use crate::transition::{
    add_requirement_finish, add_requirement_spec, cascade_spec, from_nodes_spec, fulfill_spec,
    insert_all_spec, ready_ids, satisfy_spec, settle_spec, update_depends_on_spec,
    update_required_by_spec, update_value_spec,
};
use crate::view::{IdSeq, LatticeView, NodeView};

verus! {

/// The identifiers of a row of nodes, in storage order.
pub open spec fn node_ids<T: NodeType>(s: Seq<BasicNode<T>>) -> Seq<IdSeq> {
    s.map_values(|n: BasicNode<T>| n@.id)
}

/// A row of nodes as a map from identifier to abstract node; a later row
/// entry displaces an earlier one with the same identifier.
pub open spec fn nodes_map<T: NodeType>(s: Seq<BasicNode<T>>) -> Map<IdSeq, NodeView>
    decreases s.len(),
{
    if s.len() == 0 {
        Map::empty()
    } else {
        nodes_map(s.drop_last()).insert(s.last()@.id, s.last()@)
    }
}

pub proof fn lemma_nodes_map_dom<T: NodeType>(s: Seq<BasicNode<T>>)
    ensures
        nodes_map(s).dom() == node_ids(s).to_set(),
        nodes_map(s).dom().finite(),
    decreases s.len(),
{
    if s.len() == 0 {
        assert(nodes_map(s).dom() =~= node_ids(s).to_set());
    } else {
        let dl = s.drop_last();
        lemma_nodes_map_dom(dl);
        lemma_push_to_set(node_ids(dl), s.last()@.id);
        assert(node_ids(s) =~= node_ids(dl).push(s.last()@.id));
        assert(nodes_map(s).dom() =~= node_ids(s).to_set());
    }
}

/// Duplicate-free identifiers survive dropping the last row entry.
proof fn lemma_node_ids_drop_last<T: NodeType>(s: Seq<BasicNode<T>>)
    requires
        s.len() > 0,
        node_ids(s).no_duplicates(),
    ensures
        node_ids(s.drop_last()) == node_ids(s).drop_last(),
        node_ids(s.drop_last()).no_duplicates(),
{
    assert(node_ids(s.drop_last()) =~= node_ids(s).drop_last());
    assert forall|p: int, q: int|
        0 <= p < q < node_ids(s.drop_last()).len() implies node_ids(s.drop_last())[p] != node_ids(
        s.drop_last(),
    )[q] by {
        assert(node_ids(s)[p] == node_ids(s.drop_last())[p]);
        assert(node_ids(s)[q] == node_ids(s.drop_last())[q]);
    }
}

/// With duplicate-free identifiers, the map holds each row entry under its
/// own identifier.
pub proof fn lemma_nodes_map_index<T: NodeType>(s: Seq<BasicNode<T>>, i: int)
    requires
        node_ids(s).no_duplicates(),
        0 <= i < s.len(),
    ensures
        nodes_map(s).dom().contains(s[i]@.id),
        nodes_map(s)[s[i]@.id] == s[i]@,
    decreases s.len(),
{
    let dl = s.drop_last();
    if i == s.len() - 1 {
    } else {
        lemma_node_ids_drop_last(s);
        lemma_nodes_map_index(dl, i);
        assert(node_ids(s)[i] == s[i]@.id);
        assert(node_ids(s)[s.len() - 1] == s.last()@.id);
        assert(dl[i] == s[i]);
    }
}

pub proof fn lemma_nodes_map_push<T: NodeType>(s: Seq<BasicNode<T>>, n: BasicNode<T>)
    ensures
        nodes_map(s.push(n)) == nodes_map(s).insert(n@.id, n@),
{
    assert(s.push(n).drop_last() =~= s);
    assert(s.push(n).last() == n);
}

/// With duplicate-free identifiers, removing a row entry removes exactly its
/// identifier from the map.
pub proof fn lemma_nodes_map_remove<T: NodeType>(s: Seq<BasicNode<T>>, i: int)
    requires
        node_ids(s).no_duplicates(),
        0 <= i < s.len(),
    ensures
        nodes_map(s.remove(i)) == nodes_map(s).remove(s[i]@.id),
    decreases s.len(),
{
    let dl = s.drop_last();
    let id = s[i]@.id;
    lemma_node_ids_drop_last(s);
    if i == s.len() - 1 {
        assert(s.remove(i) =~= dl);
        lemma_nodes_map_dom(dl);
        assert(!node_ids(dl).contains(id)) by {
            if node_ids(dl).contains(id) {
                let j = choose|j: int| 0 <= j < node_ids(dl).len() && node_ids(dl)[j] == id;
                assert(node_ids(s)[j] == id);
                assert(node_ids(s)[i] == id);
            }
        }
        assert(nodes_map(s).remove(id) =~= nodes_map(dl));
    } else {
        let r = s.remove(i);
        assert(r.drop_last() =~= dl.remove(i));
        assert(r.last() == s.last());
        lemma_nodes_map_remove(dl, i);
        assert(dl[i] == s[i]);
        assert(s.last()@.id != id) by {
            assert(node_ids(s)[i] == id);
            assert(node_ids(s)[s.len() - 1] == s.last()@.id);
        }
        assert(nodes_map(dl).remove(id).insert(s.last()@.id, s.last()@) =~= nodes_map(dl).insert(
            s.last()@.id,
            s.last()@,
        ).remove(id));
        assert(nodes_map(s.remove(i)) =~= nodes_map(s).remove(id));
    }
}

/// Looks up the position of the node with identifier `key`, if any.
fn find_in<T: NodeType>(v: &Vec<BasicNode<T>>, key: &String) -> (r: Option<usize>)
    ensures
        match r {
            Some(i) => i < v@.len() && v@[i as int]@.id == key@,
            None => !node_ids(v@).contains(key@),
        },
{
    let mut i: usize = 0;
    while i < v.len()
        invariant
            i <= v.len(),
            forall|j: int| 0 <= j < i ==> node_ids(v@)[j] != key@,
        decreases v.len() - i,
    {
        let u = v[i].uuid();
        proof {
            lemma_node_as_payload(&v@[i as int]);
        }
        if u.eq(key) {
            assert(v@[i as int]@.id == key@);
            return Some(i);
        }
        assert(node_ids(v@)[i as int] != key@);
        i += 1;
    }
    proof {
        if node_ids(v@).contains(key@) {
            let j = choose|j: int| 0 <= j < node_ids(v@).len() && node_ids(v@)[j] == key@;
            assert(node_ids(v@)[j] == key@);
        }
    }
    None
}

/// The abstract states of a row of nodes, in storage order.
pub open spec fn node_views<T: NodeType>(s: Seq<BasicNode<T>>) -> Seq<NodeView> {
    s.map_values(|n: BasicNode<T>| n@)
}

/// Every node of a row is well formed.
pub open spec fn all_wf<T: NodeType>(s: Seq<BasicNode<T>>) -> bool {
    forall|i: int| 0 <= i < s.len() ==> (#[trigger] s[i]).wf()
}

/// A well-formed lattice has a sound abstract state: finitely many nodes,
/// the two collections disjoint, every node well formed and stored under its
/// own identifier.
pub proof fn lemma_wf_inv<T: NodeType>(l: &BasicLattice<T>)
    requires
        l.wf(),
    ensures
        l@.inv(),
{
    lemma_nodes_map_dom(l.pending@);
    lemma_nodes_map_dom(l.fulfilled@);
    lemma_concat_unique(node_ids(l.pending@), node_ids(l.fulfilled@));
    assert forall|k: IdSeq|
        l@.pending.dom().contains(k) implies (#[trigger] l@.pending[k]).wf()
            && l@.pending[k].id == k by {
        let i = choose|i: int|
            0 <= i < node_ids(l.pending@).len() && node_ids(l.pending@)[i] == k;
        lemma_nodes_map_index(l.pending@, i);
        crate::node::lemma_node_wf(&l.pending@[i]);
    }
    assert forall|k: IdSeq|
        l@.fulfilled.dom().contains(k) implies (#[trigger] l@.fulfilled[k]).wf()
            && l@.fulfilled[k].id == k by {
        let i = choose|i: int|
            0 <= i < node_ids(l.fulfilled@).len() && node_ids(l.fulfilled@)[i] == k;
        lemma_nodes_map_index(l.fulfilled@, i);
        crate::node::lemma_node_wf(&l.fulfilled@[i]);
    }
}

/// Removes and returns the node at position `i`.
fn take_at<T: NodeType>(v: &mut Vec<BasicNode<T>>, i: usize) -> (n: BasicNode<T>)
    requires
        i < old(v)@.len(),
        node_ids(old(v)@).no_duplicates(),
    ensures
        n == old(v)@[i as int],
        final(v)@ == old(v)@.remove(i as int),
        nodes_map(final(v)@) == nodes_map(old(v)@).remove(n@.id),
        node_ids(final(v)@).no_duplicates(),
        node_ids(final(v)@).to_set() == node_ids(old(v)@).to_set().remove(n@.id),
        !node_ids(final(v)@).contains(n@.id),
        forall|x: IdSeq|
            node_ids(final(v)@).contains(x) ==> node_ids(old(v)@).contains(x),
        all_wf(old(v)@) ==> all_wf(final(v)@),
{
    proof {
        lemma_nodes_map_remove(v@, i as int);
        crate::ids::lemma_remove_at_unique(node_ids(v@), i as int);
        assert(node_ids(v@.remove(i as int)) =~= node_ids(v@).remove(i as int));
        if all_wf(v@) {
            assert forall|j: int|
                0 <= j < v@.remove(i as int).len() implies (#[trigger] v@.remove(
                i as int,
            )[j]).wf() by {
                if j < i {
                    assert(v@.remove(i as int)[j] == v@[j]);
                } else {
                    assert(v@.remove(i as int)[j] == v@[j + 1]);
                }
            }
        }
    }
    v.remove(i)
}

/// Appends a node whose identifier is not yet in the row.
fn put<T: NodeType>(v: &mut Vec<BasicNode<T>>, n: BasicNode<T>)
    requires
        !node_ids(old(v)@).contains(n@.id),
        node_ids(old(v)@).no_duplicates(),
    ensures
        final(v)@ == old(v)@.push(n),
        nodes_map(final(v)@) == nodes_map(old(v)@).insert(n@.id, n@),
        node_ids(final(v)@) == node_ids(old(v)@).push(n@.id),
        node_ids(final(v)@).no_duplicates(),
        forall|x: IdSeq|
            node_ids(final(v)@).contains(x) ==> node_ids(old(v)@).contains(x) || x == n@.id,
        all_wf(old(v)@) && n.wf() ==> all_wf(final(v)@),
{
    proof {
        lemma_nodes_map_push(v@, n);
        assert(node_ids(v@.push(n)) =~= node_ids(v@).push(n@.id));
        crate::ids::lemma_push_unique(node_ids(v@), n@.id);
        crate::ids::lemma_add_unique_props(node_ids(v@), n@.id);
        if all_wf(v@) && n.wf() {
            assert forall|j: int|
                0 <= j < v@.push(n).len() implies (#[trigger] v@.push(n)[j]).wf() by {
                if j < v@.len() {
                    assert(v@.push(n)[j] == v@[j]);
                } else {
                    assert(v@.push(n)[j] == n);
                }
            }
        }
    }
    v.push(n)
}

/// A lattice over payloads of type `T`: the sole owner of its nodes, which
/// refer to one another by identifier only.
pub struct BasicLattice<T: NodeType> {
    pending: Vec<BasicNode<T>>,
    fulfilled: Vec<BasicNode<T>>,
}

impl<T: NodeType> View for BasicLattice<T> {
    type V = LatticeView;

    closed spec fn view(&self) -> LatticeView {
        LatticeView { pending: nodes_map(self.pending@), fulfilled: nodes_map(self.fulfilled@) }
    }
}

impl<T: NodeType> BasicLattice<T> {
    /// Well-formedness of the concrete rows: every node well formed, and no
    /// identifier stored twice anywhere.
    pub closed spec fn wf(&self) -> bool {
        &&& all_wf(self.pending@)
        &&& all_wf(self.fulfilled@)
        &&& (node_ids(self.pending@) + node_ids(self.fulfilled@)).no_duplicates()
    }

    /// Creates an empty lattice.
    pub fn new() -> (r: Self)
        ensures
            r.wf(),
            r@.pending == Map::<IdSeq, NodeView>::empty(),
            r@.fulfilled == Map::<IdSeq, NodeView>::empty(),
    {
        let r = BasicLattice { pending: Vec::new(), fulfilled: Vec::new() };
        proof {
            assert(node_ids(r.pending@) + node_ids(r.fulfilled@) =~= Seq::<IdSeq>::empty());
        }
        r
    }

    /// The pending nodes, for inspection only.
    pub fn read_pending(&self) -> (r: &Vec<BasicNode<T>>)
        ensures
            nodes_map(r@) == self@.pending,
    {
        &self.pending
    }

    /// The fulfilled nodes, for inspection only.
    pub fn read_fulfilled(&self) -> (r: &Vec<BasicNode<T>>)
        ensures
            nodes_map(r@) == self@.fulfilled,
    {
        &self.fulfilled
    }

    /// Whether the lattice as a whole is done: nothing is pending any more.
    pub fn is_completed(&self) -> (r: bool)
        ensures
            r == self@.pending.dom().is_empty(),
    {
        proof {
            lemma_nodes_map_dom(self.pending@);
            if self.pending@.len() > 0 {
                let x = self.pending@[0]@.id;
                assert(node_ids(self.pending@)[0] == x);
                assert(node_ids(self.pending@).contains(x));
                assert(self@.pending.dom().contains(x));
                assert(!Set::<IdSeq>::empty().contains(x));
                assert(!self@.pending.dom().is_empty());
            } else {
                assert(node_ids(self.pending@).to_set() =~= Set::<IdSeq>::empty());
                assert(self@.pending.dom().is_empty());
            }
        }
        self.pending.is_empty()
    }

    /// Files `t` as pending, displacing any pending node with the same
    /// identifier.  The identifier must not belong to a fulfilled node.
    pub fn append_pending(&mut self, t: BasicNode<T>)
        requires
            old(self).wf(),
            t.wf(),
            !old(self)@.fulfilled.dom().contains(t@.id),
        ensures
            final(self).wf(),
            final(self)@ == (LatticeView {
                pending: old(self)@.pending.insert(t@.id, t@),
                fulfilled: old(self)@.fulfilled,
            }),
    {
        let key = t.uuid();
        proof {
            lemma_node_as_payload(&t);
            lemma_concat_unique(node_ids(self.pending@), node_ids(self.fulfilled@));
            lemma_nodes_map_dom(self.fulfilled@);
            assert(!node_ids(self.fulfilled@).contains(t@.id));
        }
        let ghost row0 = self.pending@;
        match find_in(&self.pending, &key) {
            Some(i) => {
                let stale = take_at(&mut self.pending, i);
                let ghost ids1 = node_ids(self.pending@);
                put(&mut self.pending, t);
                proof {
                    assert(stale@.id == t@.id);
                    lemma_push_to_set(ids1, t@.id);
                    assert(nodes_map(self.pending@) =~= nodes_map(row0).insert(t@.id, t@));
                }
            }
            None => {
                put(&mut self.pending, t);
            }
        }
        proof {
            assert(self@ =~= (LatticeView {
                pending: old(self)@.pending.insert(t@.id, t@),
                fulfilled: old(self)@.fulfilled,
            }));
            assert forall|x: IdSeq|
                !(node_ids(self.pending@).contains(x) && node_ids(self.fulfilled@).contains(
                    x,
                )) by {
                if node_ids(self.pending@).contains(x) && node_ids(self.fulfilled@).contains(x) {
                    assert(node_ids(row0).contains(x) || x == t@.id);
                }
            }
            lemma_concat_unique(node_ids(self.pending@), node_ids(self.fulfilled@));
        }
    }

    /// Files `t` as fulfilled, displacing any fulfilled node with the same
    /// identifier.  The identifier must not belong to a pending node.
    pub fn append_fulfilled(&mut self, t: BasicNode<T>)
        requires
            old(self).wf(),
            t.wf(),
            !old(self)@.pending.dom().contains(t@.id),
        ensures
            final(self).wf(),
            final(self)@ == (LatticeView {
                pending: old(self)@.pending,
                fulfilled: old(self)@.fulfilled.insert(t@.id, t@),
            }),
    {
        let key = t.uuid();
        proof {
            lemma_node_as_payload(&t);
            lemma_concat_unique(node_ids(self.pending@), node_ids(self.fulfilled@));
            lemma_nodes_map_dom(self.pending@);
            assert(!node_ids(self.pending@).contains(t@.id));
        }
        let ghost row0 = self.fulfilled@;
        match find_in(&self.fulfilled, &key) {
            Some(i) => {
                let stale = take_at(&mut self.fulfilled, i);
                let ghost ids1 = node_ids(self.fulfilled@);
                put(&mut self.fulfilled, t);
                proof {
                    assert(stale@.id == t@.id);
                    lemma_push_to_set(ids1, t@.id);
                    assert(nodes_map(self.fulfilled@) =~= nodes_map(row0).insert(t@.id, t@));
                }
            }
            None => {
                put(&mut self.fulfilled, t);
            }
        }
        proof {
            assert(self@ =~= (LatticeView {
                pending: old(self)@.pending,
                fulfilled: old(self)@.fulfilled.insert(t@.id, t@),
            }));
            assert forall|x: IdSeq|
                !(node_ids(self.pending@).contains(x) && node_ids(self.fulfilled@).contains(
                    x,
                )) by {
                if node_ids(self.pending@).contains(x) && node_ids(self.fulfilled@).contains(x) {
                    assert(node_ids(row0).contains(x) || x == t@.id);
                }
            }
            lemma_concat_unique(node_ids(self.pending@), node_ids(self.fulfilled@));
        }
    }

    /// Files `t` by the placement rule: as pending while something blocks
    /// it, as fulfilled once nothing does.
    pub fn append(&mut self, t: BasicNode<T>)
        requires
            old(self).wf(),
            t.wf(),
            !t@.ready() ==> !old(self)@.fulfilled.dom().contains(t@.id),
            t@.ready() ==> !old(self)@.pending.dom().contains(t@.id),
        ensures
            final(self).wf(),
            final(self)@ == old(self)@.place(t@),
    {
        if t.is_pending() {
            self.append_pending(t);
        } else {
            self.append_fulfilled(t);
        }
    }

    /// Records, on the back-edge side only, that `is_required_by` depends on
    /// `target`.  The answer says whether the relationship currently blocks
    /// the dependent: `true` when `target` is still pending, `false` when it
    /// is already fulfilled.
    pub fn update_required_by(&mut self, target: String, is_required_by: String) -> (r: Result<
        bool,
        LatticeError,
    >)
        requires
            old(self).wf(),
        ensures
            final(self).wf(),
            final(self)@ == update_required_by_spec(old(self)@, target@, is_required_by@).0,
            r == update_required_by_spec(old(self)@, target@, is_required_by@).1,
    {
        proof {
            lemma_concat_unique(node_ids(self.pending@), node_ids(self.fulfilled@));
            lemma_nodes_map_dom(self.pending@);
            lemma_nodes_map_dom(self.fulfilled@);
        }
        let ghost prow0 = self.pending@;
        let ghost frow0 = self.fulfilled@;
        match find_in(&self.pending, &target) {
            Some(i) => {
                proof {
                    lemma_nodes_map_index(prow0, i as int);
                    assert(node_ids(prow0)[i as int] == target@);
                }
                let mut n = take_at(&mut self.pending, i);
                n.add_required_by(is_required_by);
                put(&mut self.pending, n);
                proof {
                    assert(self@.pending =~= old(self)@.pending.insert(
                        target@,
                        old(self)@.pending[target@].with_req(is_required_by@),
                    ));
                    assert(self@ =~= update_required_by_spec(
                        old(self)@,
                        target@,
                        is_required_by@,
                    ).0);
                    assert forall|x: IdSeq|
                        node_ids(self.pending@).contains(x) implies node_ids(prow0).contains(
                        x,
                    ) by {}
                    lemma_rows_replace(
                        node_ids(prow0),
                        node_ids(frow0),
                        node_ids(self.pending@),
                        node_ids(self.fulfilled@),
                    );
                }
                Ok(true)
            },
            None => match find_in(&self.fulfilled, &target) {
                Some(i) => {
                    proof {
                        lemma_nodes_map_index(frow0, i as int);
                        assert(node_ids(frow0)[i as int] == target@);
                    }
                    let mut n = take_at(&mut self.fulfilled, i);
                    n.add_required_by(is_required_by);
                    put(&mut self.fulfilled, n);
                    proof {
                        assert(self@.fulfilled =~= old(self)@.fulfilled.insert(
                            target@,
                            old(self)@.fulfilled[target@].with_req(is_required_by@),
                        ));
                        assert(self@ =~= update_required_by_spec(
                            old(self)@,
                            target@,
                            is_required_by@,
                        ).0);
                        assert forall|x: IdSeq|
                            node_ids(self.fulfilled@).contains(x) implies node_ids(
                            frow0,
                        ).contains(x) by {}
                        lemma_rows_replace(
                            node_ids(prow0),
                            node_ids(frow0),
                            node_ids(self.pending@),
                            node_ids(self.fulfilled@),
                        );
                    }
                    Ok(false)
                },
                None => Err(LatticeError::NotFound),
            },
        }
    }

    /// Records, on the forward-edge side only, that `target` depends on
    /// `depends_on`.  A fulfilled target is taken out, given the edge, and
    /// re-filed by the placement rule, so one that acquired a genuinely new,
    /// unmet prerequisite reopens as pending.
    pub fn update_depends_on(&mut self, target: String, depends_on: String) -> (r: Result<
        (),
        LatticeError,
    >)
        requires
            old(self).wf(),
        ensures
            final(self).wf(),
            final(self)@ == update_depends_on_spec(old(self)@, target@, depends_on@).0,
            r == update_depends_on_spec(old(self)@, target@, depends_on@).1,
    {
        proof {
            lemma_concat_unique(node_ids(self.pending@), node_ids(self.fulfilled@));
            lemma_nodes_map_dom(self.pending@);
            lemma_nodes_map_dom(self.fulfilled@);
        }
        let ghost prow0 = self.pending@;
        let ghost frow0 = self.fulfilled@;
        match find_in(&self.pending, &target) {
            Some(i) => {
                proof {
                    lemma_nodes_map_index(prow0, i as int);
                    assert(node_ids(prow0)[i as int] == target@);
                }
                let mut n = take_at(&mut self.pending, i);
                n.add_depends_on(depends_on);
                put(&mut self.pending, n);
                proof {
                    assert(self@.pending =~= old(self)@.pending.insert(
                        target@,
                        old(self)@.pending[target@].with_dep(depends_on@),
                    ));
                    assert(self@ =~= update_depends_on_spec(old(self)@, target@, depends_on@).0);
                    assert forall|x: IdSeq|
                        node_ids(self.pending@).contains(x) implies node_ids(prow0).contains(
                        x,
                    ) by {}
                    lemma_rows_replace(
                        node_ids(prow0),
                        node_ids(frow0),
                        node_ids(self.pending@),
                        node_ids(self.fulfilled@),
                    );
                }
                Ok(())
            },
            None => match find_in(&self.fulfilled, &target) {
                Some(i) => {
                    proof {
                        lemma_nodes_map_index(frow0, i as int);
                        assert(node_ids(frow0)[i as int] == target@);
                    }
                    let mut n = take_at(&mut self.fulfilled, i);
                    proof {
                        assert forall|x: IdSeq|
                            node_ids(self.fulfilled@).contains(x) implies node_ids(
                            frow0,
                        ).contains(x) by {}
                        lemma_rows_replace(
                            node_ids(prow0),
                            node_ids(frow0),
                            node_ids(self.pending@),
                            node_ids(self.fulfilled@),
                        );
                        lemma_nodes_map_dom(self.fulfilled@);
                    }
                    n.add_depends_on(depends_on);
                    self.append(n);
                    proof {
                        assert(self@ =~= update_depends_on_spec(old(self)@, target@, depends_on@).0);
                    }
                    Ok(())
                },
                None => Err(LatticeError::NotFound),
            },
        }
    }

    /// Fulfills the node `key`: removes it from `pending`, satisfies the
    /// matching edge in every node that waited on it, files it as fulfilled,
    /// and repeats for every dependent that thereby became ready, in the
    /// order discovered.  A failing step leaves its own node pending, keeps
    /// the edges already satisfied, and abandons the rest of the cascade.
    #[verifier::loop_isolation(false)]
    pub fn fulfill(&mut self, key: String) -> (r: Result<(), LatticeError>)
        requires
            old(self).wf(),
        ensures
            final(self).wf(),
            final(self)@ == fulfill_spec(old(self)@, key@).0,
            r == fulfill_spec(old(self)@, key@).1,
    {
        proof {
            lemma_nodes_map_dom(self.pending@);
        }
        match find_in(&self.pending, &key) {
            None => {
                return Err(LatticeError::NotFound);
            },
            Some(i0) => {
                proof {
                    assert(node_ids(self.pending@)[i0 as int] == key@);
                    assert(node_ids(self.pending@).contains(key@));
                    assert(old(self)@.pending.dom().contains(key@));
                }
            },
        }
        let mut queue: Vec<String> = Vec::new();
        let ghost key_id = key@;
        queue.push(key);
        let mut qi: usize = 0;
        proof {
            assert(str_seq(queue@) =~= seq![key_id]);
            assert(str_seq(queue@).skip(0) =~= seq![key_id]);
        }
        while qi < queue.len()
            invariant
                self.wf(),
                qi <= queue@.len(),
                cascade_spec(self@, str_seq(queue@).skip(qi as int)) == cascade_spec(
                    old(self)@,
                    seq![key_id],
                ),
            decreases self.pending@.len(),
        {
            let k = queue[qi].clone();
            qi += 1;
            let ghost q_cur = str_seq(queue@).skip(qi as int - 1);
            let ghost q_rest = str_seq(queue@).skip(qi as int);
            proof {
                assert(q_cur[0] == k@);
                assert(q_cur.drop_first() =~= q_rest);
            }
            let ghost l_start = self@;
            proof {
                lemma_nodes_map_dom(self.pending@);
                lemma_nodes_map_dom(self.fulfilled@);
                lemma_concat_unique(node_ids(self.pending@), node_ids(self.fulfilled@));
            }
            match find_in(&self.pending, &k) {
                None => {
                    proof {
                        assert(!l_start.pending.dom().contains(k@));
                        assert(cascade_spec(l_start, q_cur) == (
                            l_start,
                            Err::<(), LatticeError>(LatticeError::InconsistentGraph),
                        ));
                    }
                    return Err(LatticeError::InconsistentGraph);
                },
                Some(i) => {
                    let ghost prow0g = self.pending@;
                    let ghost frow0g = self.fulfilled@;
                    proof {
                        lemma_nodes_map_index(prow0g, i as int);
                    }
                    let target = take_at(&mut self.pending, i);
                    let ghost nk = target@;
                    let ghost pend1 = self@.pending;
                    proof {
                        assert(nk.id == k@);
                        assert(l_start.pending.dom().contains(k@));
                        assert(l_start.pending[k@] == nk);
                        assert(pend1 == l_start.pending.remove(k@));
                    }
                    let mut found: Vec<String> = Vec::new();
                    proof {
                        assert(str_seq(found@) =~= Seq::<IdSeq>::empty());
                        assert(nk.reqs.skip(0) =~= nk.reqs);
                    }
                    let rq = target.required_by();
                    let mut j: usize = 0;
                    while j < rq.len()
                        invariant
                            j <= rq@.len(),
                            self.pending@.len() + 1 == prow0g.len(),
                            self.fulfilled@ == frow0g,
                            node_ids(self.pending@).no_duplicates(),
                            all_wf(self.pending@),
                            !node_ids(self.pending@).contains(k@),
                            forall|x: IdSeq|
                                node_ids(self.pending@).contains(x) ==> node_ids(
                                    prow0g,
                                ).contains(x),
                            satisfy_spec(
                                nodes_map(self.pending@),
                                k@,
                                nk.reqs.skip(j as int),
                                str_seq(found@),
                            ) == satisfy_spec(pend1, k@, nk.reqs, Seq::empty()),
                        decreases rq@.len() - j,
                    {
                        let rk = rq[j].clone();
                        proof {
                            assert(str_seq(rq@)[j as int] == rk@);
                            assert(nk.reqs.skip(j as int)[0] == nk.reqs[j as int]);
                            assert(nk.reqs[j as int] == rk@);
                            lemma_nodes_map_dom(self.pending@);
                        }
                        let ghost cur_pend = nodes_map(self.pending@);
                        let ghost acc = str_seq(found@);
                        match find_in(&self.pending, &rk) {
                            None => {
                                proof {
                                    assert(!cur_pend.dom().contains(rk@));
                                    assert(satisfy_spec(pend1, k@, nk.reqs, Seq::empty()) == (
                                        cur_pend,
                                        acc,
                                        Err::<(), LatticeError>(LatticeError::InconsistentGraph),
                                    ));
                                }
                                put(&mut self.pending, target);
                                proof {
                                    assert(cascade_spec(l_start, q_cur) == (
                                        LatticeView {
                                            pending: cur_pend.insert(k@, nk),
                                            fulfilled: l_start.fulfilled,
                                        },
                                        Err::<(), LatticeError>(LatticeError::InconsistentGraph),
                                    ));
                                    assert(self@ =~= (LatticeView {
                                        pending: cur_pend.insert(k@, nk),
                                        fulfilled: l_start.fulfilled,
                                    }));
                                    lemma_rows_replace(
                                        node_ids(prow0g),
                                        node_ids(frow0g),
                                        node_ids(self.pending@),
                                        node_ids(self.fulfilled@),
                                    );
                                }
                                return Err(LatticeError::InconsistentGraph);
                            },
                            Some(di) => {
                                proof {
                                    lemma_nodes_map_index(self.pending@, di as int);
                                }
                                let ghost dep_row = self.pending@;
                                let mut dep = take_at(&mut self.pending, di);
                                proof {
                                    assert(dep@ == cur_pend[rk@]);
                                }
                                match dep.depend_fulfilled(k.clone()) {
                                    Err(e) => {
                                        proof {
                                            assert(!cur_pend[rk@].deps.contains(k@));
                                            assert(satisfy_spec(pend1, k@, nk.reqs, Seq::empty())
                                                == (
                                                cur_pend,
                                                acc,
                                                Err::<(), LatticeError>(
                                                    LatticeError::UnknownDependency,
                                                ),
                                            ));
                                            assert(e == LatticeError::UnknownDependency);
                                        }
                                        put(&mut self.pending, dep);
                                        proof {
                                            assert(nodes_map(self.pending@) =~= cur_pend);
                                        }
                                        put(&mut self.pending, target);
                                        proof {
                                            assert(cascade_spec(l_start, q_cur) == (
                                                LatticeView {
                                                    pending: cur_pend.insert(k@, nk),
                                                    fulfilled: l_start.fulfilled,
                                                },
                                                Err::<(), LatticeError>(
                                                    LatticeError::UnknownDependency,
                                                ),
                                            ));
                                            assert(self@ =~= (LatticeView {
                                                pending: cur_pend.insert(k@, nk),
                                                fulfilled: l_start.fulfilled,
                                            }));
                                            lemma_rows_replace(
                                                node_ids(prow0g),
                                                node_ids(frow0g),
                                                node_ids(self.pending@),
                                                node_ids(self.fulfilled@),
                                            );
                                        }
                                        return Err(e);
                                    },
                                    Ok(()) => {
                                        let ghost nd = dep@;
                                        proof {
                                            assert(nd == cur_pend[rk@].satisfied(k@));
                                        }
                                        if !dep.is_pending() {
                                            found.push(rk);
                                            proof {
                                                assert(str_seq(found@) =~= acc.push(rk@));
                                            }
                                        }
                                        put(&mut self.pending, dep);
                                        proof {
                                            assert(nodes_map(self.pending@) =~= cur_pend.insert(
                                                rk@,
                                                nd,
                                            ));
                                            assert(nk.reqs.skip(j as int).drop_first()
                                                =~= nk.reqs.skip(j as int + 1));
                                            assert(satisfy_spec(
                                                nodes_map(self.pending@),
                                                k@,
                                                nk.reqs.skip(j as int + 1),
                                                str_seq(found@),
                                            ) == satisfy_spec(pend1, k@, nk.reqs, Seq::empty()));
                                        }
                                    },
                                }
                            },
                        }
                        j += 1;
                    }
                    proof {
                        assert(nk.reqs.skip(rq@.len() as int) =~= Seq::<IdSeq>::empty());
                    }
                    let ghost p2 = nodes_map(self.pending@);
                    let ghost fid = str_seq(found@);
                    proof {
                        assert(satisfy_spec(pend1, k@, nk.reqs, Seq::empty()) == (
                            p2,
                            fid,
                            Ok::<(), LatticeError>(()),
                        ));
                        lemma_nodes_map_dom(self.fulfilled@);
                    }
                    let ghost old_queue = str_seq(queue@);
                    put(&mut self.fulfilled, target);
                    queue.append(&mut found);
                    proof {
                        assert(str_seq(queue@) =~= old_queue + fid);
                        assert(str_seq(queue@).skip(qi as int) =~= q_rest + fid);
                        assert(nodes_map(self.fulfilled@) =~= l_start.fulfilled.insert(k@, nk));
                        assert(l_start.pending.dom().finite());
                        assert(q_cur.len() > 0);
                        assert(p2.dom().finite()) by {
                            lemma_nodes_map_dom(self.pending@);
                        }
                        assert(cascade_spec(l_start, q_cur) == cascade_spec(
                            LatticeView {
                                pending: p2,
                                fulfilled: l_start.fulfilled.insert(k@, nk),
                            },
                            q_cur.drop_first() + fid,
                        ));
                        assert(self@ =~= (LatticeView {
                            pending: p2,
                            fulfilled: l_start.fulfilled.insert(k@, nk),
                        }));
                        assert(q_cur.drop_first() + fid =~= str_seq(queue@).skip(qi as int));
                        assert forall|x: IdSeq|
                            !(node_ids(self.pending@).contains(x) && node_ids(
                                self.fulfilled@,
                            ).contains(x)) by {
                            if node_ids(self.pending@).contains(x) && node_ids(
                                self.fulfilled@,
                            ).contains(x) {
                                assert(node_ids(prow0g).contains(x));
                                assert(node_ids(frow0g).contains(x) || x == k@);
                                lemma_concat_unique(node_ids(prow0g), node_ids(frow0g));
                            }
                        }
                        lemma_concat_unique(node_ids(self.pending@), node_ids(self.fulfilled@));
                    }
                },
            }
        }
        proof {
            lemma_nodes_map_dom(self.pending@);
            assert(str_seq(queue@).skip(qi as int) =~= Seq::<IdSeq>::empty());
            assert(cascade_spec(self@, Seq::empty()) == (self@, Ok::<(), LatticeError>(())));
        }
        Ok(())
    }

    /// Replaces the payload of the pending node `key`.  The replacement must
    /// carry the identifier `key`; if the node thereby becomes ready it is
    /// fulfilled at once, cascade included.
    pub fn update_value(&mut self, key: String, update: T) -> (r: Result<(), LatticeError>)
        requires
            old(self).wf(),
        ensures
            final(self).wf(),
            final(self)@ == update_value_spec(
                old(self)@,
                key@,
                update.spec_uuid(),
                update.spec_completed(),
            ).0,
            r == update_value_spec(
                old(self)@,
                key@,
                update.spec_uuid(),
                update.spec_completed(),
            ).1,
    {
        proof {
            lemma_nodes_map_dom(self.pending@);
            lemma_concat_unique(node_ids(self.pending@), node_ids(self.fulfilled@));
        }
        let ghost prow0g = self.pending@;
        let ghost frow0g = self.fulfilled@;
        match find_in(&self.pending, &key) {
            None => Err(LatticeError::NotFound),
            Some(i) => {
                proof {
                    lemma_nodes_map_index(prow0g, i as int);
                }
                let mut n = take_at(&mut self.pending, i);
                match n.update(update) {
                    Err(e) => {
                        put(&mut self.pending, n);
                        proof {
                            assert(nodes_map(self.pending@) =~= nodes_map(prow0g));
                            assert(self@ =~= old(self)@);
                            assert forall|x: IdSeq|
                                node_ids(self.pending@).contains(x) implies node_ids(
                                prow0g,
                            ).contains(x) by {}
                            lemma_rows_replace(
                                node_ids(prow0g),
                                node_ids(frow0g),
                                node_ids(self.pending@),
                                node_ids(self.fulfilled@),
                            );
                        }
                        Err(e)
                    },
                    Ok(()) => {
                        let now_ready = !n.is_pending();
                        put(&mut self.pending, n);
                        proof {
                            assert(self@.pending =~= old(self)@.pending.insert(
                                key@,
                                old(self)@.pending[key@].with_complete(update.spec_completed()),
                            ));
                            assert forall|x: IdSeq|
                                node_ids(self.pending@).contains(x) implies node_ids(
                                prow0g,
                            ).contains(x) by {}
                            lemma_rows_replace(
                                node_ids(prow0g),
                                node_ids(frow0g),
                                node_ids(self.pending@),
                                node_ids(self.fulfilled@),
                            );
                        }
                        if now_ready {
                            let r = self.fulfill(key);
                            proof {
                                assert(self@ =~= update_value_spec(
                                    old(self)@,
                                    key@,
                                    update.spec_uuid(),
                                    update.spec_completed(),
                                ).0);
                            }
                            r
                        } else {
                            proof {
                                assert(self@ =~= update_value_spec(
                                    old(self)@,
                                    key@,
                                    update.spec_uuid(),
                                    update.spec_completed(),
                                ).0);
                            }
                            Ok(())
                        }
                    },
                }
            },
        }
    }

    /// Wires the full bidirectional edge "`requirer` depends on
    /// `is_required`" in one call.  The back-edge is recorded on the
    /// prerequisite first; the forward edge is then added as unmet or as
    /// already satisfied according to where the prerequisite resides.  A
    /// fulfilled requirer that acquires a genuinely new, unmet prerequisite
    /// is reopened: demoted back to pending.
    pub fn add_requirement(&mut self, requirer: String, is_required: String) -> (r: Result<
        (),
        LatticeError,
    >)
        requires
            old(self).wf(),
        ensures
            final(self).wf(),
            final(self)@ == add_requirement_spec(old(self)@, requirer@, is_required@).0,
            r == add_requirement_spec(old(self)@, requirer@, is_required@).1,
    {
        proof {
            lemma_nodes_map_dom(self.pending@);
            lemma_nodes_map_dom(self.fulfilled@);
            lemma_concat_unique(node_ids(self.pending@), node_ids(self.fulfilled@));
        }
        let ghost prow0g = self.pending@;
        let ghost frow0g = self.fulfilled@;
        let still_required: bool;
        match find_in(&self.pending, &is_required) {
            Some(pi) => {
                still_required = true;
                proof {
                    lemma_nodes_map_index(prow0g, pi as int);
                }
                let mut p = take_at(&mut self.pending, pi);
                p.add_required_by(requirer.clone());
                put(&mut self.pending, p);
                proof {
                    assert(self@.pending =~= old(self)@.pending.insert(
                        is_required@,
                        old(self)@.pending[is_required@].with_req(requirer@),
                    ));
                    assert forall|x: IdSeq|
                        node_ids(self.pending@).contains(x) implies node_ids(prow0g).contains(
                        x,
                    ) by {}
                    lemma_rows_replace(
                        node_ids(prow0g),
                        node_ids(frow0g),
                        node_ids(self.pending@),
                        node_ids(self.fulfilled@),
                    );
                }
            },
            None => {
                match find_in(&self.fulfilled, &is_required) {
                    None => {
                        return Err(LatticeError::NotFound);
                    },
                    Some(fi) => {
                        still_required = false;
                        proof {
                            lemma_nodes_map_index(frow0g, fi as int);
                        }
                        let mut p = take_at(&mut self.fulfilled, fi);
                        p.add_required_by(requirer.clone());
                        put(&mut self.fulfilled, p);
                        proof {
                            assert(self@.fulfilled =~= old(self)@.fulfilled.insert(
                                is_required@,
                                old(self)@.fulfilled[is_required@].with_req(requirer@),
                            ));
                            assert forall|x: IdSeq|
                                node_ids(self.fulfilled@).contains(x) implies node_ids(
                                frow0g,
                            ).contains(x) by {}
                            lemma_rows_replace(
                                node_ids(prow0g),
                                node_ids(frow0g),
                                node_ids(self.pending@),
                                node_ids(self.fulfilled@),
                            );
                        }
                    },
                }
            },
        }
        let ghost l1 = self@;
        proof {
            assert(l1 == if still_required {
                LatticeView {
                    pending: old(self)@.pending.insert(
                        is_required@,
                        old(self)@.pending[is_required@].with_req(requirer@),
                    ),
                    ..old(self)@
                }
            } else {
                LatticeView {
                    fulfilled: old(self)@.fulfilled.insert(
                        is_required@,
                        old(self)@.fulfilled[is_required@].with_req(requirer@),
                    ),
                    ..old(self)@
                }
            });
            lemma_nodes_map_dom(self.pending@);
            lemma_nodes_map_dom(self.fulfilled@);
            lemma_concat_unique(node_ids(self.pending@), node_ids(self.fulfilled@));
        }
        let ghost prow1g = self.pending@;
        let ghost frow1g = self.fulfilled@;
        match find_in(&self.pending, &requirer) {
            Some(ri) => {
                proof {
                    lemma_nodes_map_index(prow1g, ri as int);
                }
                let mut rn = take_at(&mut self.pending, ri);
                if still_required {
                    rn.add_depends_on(is_required);
                } else {
                    if !crate::ids::contains_id(rn.fulfilled_by(), &is_required) {
                        rn.add_depends_on(is_required.clone());
                        let _ = rn.depend_fulfilled(is_required);
                    }
                }
                put(&mut self.pending, rn);
                proof {
                    assert(self@ =~= add_requirement_finish(
                        l1,
                        requirer@,
                        is_required@,
                        still_required,
                    ).0);
                    assert(self@ =~= add_requirement_spec(old(self)@, requirer@, is_required@).0);
                    assert forall|x: IdSeq|
                        node_ids(self.pending@).contains(x) implies node_ids(prow1g).contains(
                        x,
                    ) by {}
                    lemma_rows_replace(
                        node_ids(prow1g),
                        node_ids(frow1g),
                        node_ids(self.pending@),
                        node_ids(self.fulfilled@),
                    );
                }
                Ok(())
            },
            None => {
                match find_in(&self.fulfilled, &requirer) {
                    None => {
                        proof {
                            lemma_nodes_map_dom(self.pending@);
                            lemma_nodes_map_dom(self.fulfilled@);
                        }
                        return Err(LatticeError::NotFound);
                    },
                    Some(ri) => {
                        proof {
                            lemma_nodes_map_index(frow1g, ri as int);
                        }
                        let mut rn = take_at(&mut self.fulfilled, ri);
                        proof {
                            assert forall|x: IdSeq|
                                node_ids(self.fulfilled@).contains(x) implies node_ids(
                                frow1g,
                            ).contains(x) by {}
                            lemma_rows_replace(
                                node_ids(prow1g),
                                node_ids(frow1g),
                                node_ids(self.pending@),
                                node_ids(self.fulfilled@),
                            );
                            lemma_nodes_map_dom(self.fulfilled@);
                        }
                        if still_required {
                            rn.add_depends_on(is_required);
                            self.append(rn);
                            proof {
                                assert(self@ =~= add_requirement_finish(
                                    l1,
                                    requirer@,
                                    is_required@,
                                    true,
                                ).0);
                                assert(self@ =~= add_requirement_spec(
                                    old(self)@,
                                    requirer@,
                                    is_required@,
                                ).0);
                            }
                        } else {
                            if !crate::ids::contains_id(rn.fulfilled_by(), &is_required) {
                                rn.add_depends_on(is_required.clone());
                                let _ = rn.depend_fulfilled(is_required);
                            }
                            put(&mut self.fulfilled, rn);
                            proof {
                                assert(self@ =~= add_requirement_finish(
                                    l1,
                                    requirer@,
                                    is_required@,
                                    false,
                                ).0);
                                assert(self@ =~= add_requirement_spec(
                                    old(self)@,
                                    requirer@,
                                    is_required@,
                                ).0);
                                assert forall|x: IdSeq|
                                    node_ids(self.fulfilled@).contains(x) implies node_ids(
                                    frow1g,
                                ).contains(x) by {}
                                lemma_rows_replace(
                                    node_ids(prow1g),
                                    node_ids(frow1g),
                                    node_ids(self.pending@),
                                    node_ids(self.fulfilled@),
                                );
                            }
                        }
                        Ok(())
                    },
                }
            },
        }
    }

    /// Builds a lattice from a list of nodes: every node is filed as pending
    /// (a later node displacing an earlier one with the same identifier),
    /// and every node that arrived ready is then fulfilled in turn, letting
    /// a fully pre-wired graph settle in one pass.  Failures of the settling
    /// step are deliberately pressed past, as most stem from edges whose
    /// other side was never handed in.
    #[verifier::loop_isolation(false)]
    pub fn from_node_list(v: Vec<BasicNode<T>>) -> (r: BasicLattice<T>)
        requires
            all_wf(v@),
        ensures
            r.wf(),
            r@ == from_nodes_spec(node_views(v@)),
    {
        let ghost views0 = node_views(v@);
        let ghost l_empty = LatticeView {
            pending: Map::<IdSeq, NodeView>::empty(),
            fulfilled: Map::<IdSeq, NodeView>::empty(),
        };
        let mut s = BasicLattice::new();
        let mut keys: Vec<String> = Vec::new();
        let mut v = v;
        proof {
            assert(s@ =~= l_empty);
            assert(str_seq(keys@) =~= Seq::<IdSeq>::empty());
            assert(str_seq(keys@) + ready_ids(node_views(v@)) =~= ready_ids(views0));
        }
        while v.len() > 0
            invariant
                all_wf(v@),
                s.wf(),
                s@.fulfilled == Map::<IdSeq, NodeView>::empty(),
                insert_all_spec(s@, node_views(v@)) == insert_all_spec(l_empty, views0),
                str_seq(keys@) + ready_ids(node_views(v@)) == ready_ids(views0),
            decreases v@.len(),
        {
            let ghost vs = node_views(v@);
            let ghost ks = str_seq(keys@);
            let ghost row_before = v@;
            let node = v.remove(0);
            proof {
                assert(node_views(v@) =~= vs.drop_first());
                assert(vs[0] == node@);
                assert forall|x: int| 0 <= x < v@.len() implies (#[trigger] v@[x]).wf() by {
                    assert(v@[x] == row_before[x + 1]);
                }
            }
            if !node.is_pending() {
                keys.push(node.uuid());
                proof {
                    lemma_node_as_payload(&node);
                    assert(str_seq(keys@) =~= ks.push(node@.id));
                    assert(ready_ids(vs) =~= seq![node@.id] + ready_ids(vs.drop_first()));
                    assert(str_seq(keys@) + ready_ids(node_views(v@)) =~= ks + ready_ids(vs));
                }
            } else {
                proof {
                    assert(ready_ids(vs) == ready_ids(vs.drop_first()));
                }
            }
            s.append_pending(node);
            proof {
                assert(insert_all_spec(s@, node_views(v@)) == insert_all_spec(l_empty, views0));
            }
        }
        proof {
            assert(node_views(v@) =~= Seq::<NodeView>::empty());
            assert(insert_all_spec(s@, node_views(v@)) == s@);
            assert(str_seq(keys@) + ready_ids(node_views(v@)) =~= str_seq(keys@));
            assert(str_seq(keys@) == ready_ids(views0));
            assert(str_seq(keys@).skip(0) =~= str_seq(keys@));
        }
        let ghost l_inserted = s@;
        let mut ki: usize = 0;
        while ki < keys.len()
            invariant
                s.wf(),
                ki <= keys@.len(),
                settle_spec(s@, str_seq(keys@).skip(ki as int)) == settle_spec(
                    l_inserted,
                    ready_ids(views0),
                ),
            decreases keys@.len() - ki,
        {
            let kk = keys[ki].clone();
            let ghost before = s@;
            let _ = s.fulfill(kk);
            proof {
                assert(str_seq(keys@).skip(ki as int)[0] == kk@);
                assert(str_seq(keys@).skip(ki as int).drop_first() =~= str_seq(keys@).skip(
                    ki as int + 1,
                ));
                assert(settle_spec(before, str_seq(keys@).skip(ki as int)) == settle_spec(
                    s@,
                    str_seq(keys@).skip(ki as int + 1),
                ));
            }
            ki += 1;
        }
        proof {
            assert(str_seq(keys@).skip(ki as int) =~= Seq::<IdSeq>::empty());
            assert(settle_spec(s@, Seq::<IdSeq>::empty()) == s@);
        }
        s
    }
}

} // verus!
