//! The transition functions: what each lattice operation does to the
//! abstract state.  The executable operations are proved to agree with these
//! functions exactly, for success and for failure alike.

use vstd::prelude::*;
use crate::errors::LatticeError;
use crate::view::{IdSeq, LatticeView, NodeView};

verus! {

/// Outcome of walking the dependents of a freshly fulfilled node: the pending
/// collection with the satisfied edges recorded, the identifiers that became
/// ready (in discovery order), and whether the walk succeeded.
pub type SatisfyOutcome = (Map<IdSeq, NodeView>, Seq<IdSeq>, Result<(), LatticeError>);

/// Walks `reqs`, the dependents of the node `key`, in order, satisfying the
/// `key` edge in each; a dependent that thereby becomes ready is appended to
/// `acc`.  The walk fails when a dependent is not pending or does not list
/// the edge as unmet; dependents walked before the failure keep their
/// satisfied edge.
pub open spec fn satisfy_spec(
    pend: Map<IdSeq, NodeView>,
    key: IdSeq,
    reqs: Seq<IdSeq>,
    acc: Seq<IdSeq>,
) -> SatisfyOutcome
    decreases reqs.len(),
{
    if reqs.len() == 0 {
        (pend, acc, Ok(()))
    } else {
        let d = reqs[0];
        if !pend.dom().contains(d) {
            (pend, acc, Err(LatticeError::InconsistentGraph))
        } else if !pend[d].deps.contains(key) {
            (pend, acc, Err(LatticeError::UnknownDependency))
        } else {
            let nd = pend[d].satisfied(key);
            let acc2 = if nd.ready() {
                acc.push(d)
            } else {
                acc
            };
            satisfy_spec(pend.insert(d, nd), key, reqs.drop_first(), acc2)
        }
    }
}

/// Walking dependents never adds or removes a pending node; it only rewrites
/// the edges of nodes already there.
pub proof fn lemma_satisfy_spec_dom(
    pend: Map<IdSeq, NodeView>,
    key: IdSeq,
    reqs: Seq<IdSeq>,
    acc: Seq<IdSeq>,
)
    ensures
        satisfy_spec(pend, key, reqs, acc).0.dom() == pend.dom(),
    decreases reqs.len(),
{
    if reqs.len() == 0 {
    } else {
        let d = reqs[0];
        if pend.dom().contains(d) && pend[d].deps.contains(key) {
            let nd = pend[d].satisfied(key);
            let acc2 = if nd.ready() {
                acc.push(d)
            } else {
                acc
            };
            lemma_satisfy_spec_dom(pend.insert(d, nd), key, reqs.drop_first(), acc2);
            assert(pend.insert(d, nd).dom() =~= pend.dom());
        }
    }
}

/// What a successful walk of the dependents guarantees: no pending node
/// appears or disappears, nodes outside `reqs` are untouched, each node in
/// `reqs` listed the edge and has it satisfied, and the accumulator gathers
/// exactly the dependents that thereby became ready.
pub open spec fn satisfy_ok_post(
    pend: Map<IdSeq, NodeView>,
    key: IdSeq,
    reqs: Seq<IdSeq>,
    acc: Seq<IdSeq>,
) -> bool {
    let (p2, acc2, _) = satisfy_spec(pend, key, reqs, acc);
    &&& p2.dom() == pend.dom()
    &&& forall|d: IdSeq|
        pend.dom().contains(d) && !reqs.contains(d) ==> (#[trigger] p2[d]) == pend[d]
    &&& forall|d: IdSeq|
        #[trigger] reqs.contains(d) ==> pend.dom().contains(d) && pend[d].deps.contains(key)
            && p2[d] == pend[d].satisfied(key)
    &&& forall|x: IdSeq|
        #[trigger] acc2.contains(x) <==> acc.contains(x) || (reqs.contains(x)
            && pend.dom().contains(x) && pend[x].satisfied(key).ready())
}

pub proof fn lemma_satisfy_ok(
    pend: Map<IdSeq, NodeView>,
    key: IdSeq,
    reqs: Seq<IdSeq>,
    acc: Seq<IdSeq>,
)
    requires
        reqs.no_duplicates(),
        satisfy_spec(pend, key, reqs, acc).2 is Ok,
    ensures
        satisfy_ok_post(pend, key, reqs, acc),
        acc.no_duplicates() && (forall|x: IdSeq| acc.contains(x) ==> !reqs.contains(x))
            ==> satisfy_spec(pend, key, reqs, acc).1.no_duplicates(),
    decreases reqs.len(),
{
    let p2 = satisfy_spec(pend, key, reqs, acc).0;
    let acc_out = satisfy_spec(pend, key, reqs, acc).1;
    if reqs.len() == 0 {
    } else {
        let d = reqs[0];
        assert(pend.dom().contains(d) && pend[d].deps.contains(key));
        let nd = pend[d].satisfied(key);
        let acc2 = if nd.ready() {
            acc.push(d)
        } else {
            acc
        };
        let pend2 = pend.insert(d, nd);
        let rest = reqs.drop_first();
        assert(rest.no_duplicates());
        assert(!rest.contains(d)) by {
            if rest.contains(d) {
                let j = choose|j: int| 0 <= j < rest.len() && rest[j] == d;
                assert(reqs[j + 1] == d);
            }
        }
        assert(forall|x: IdSeq| #[trigger] rest.contains(x) ==> reqs.contains(x)) by {
            assert forall|x: IdSeq| #[trigger] rest.contains(x) implies reqs.contains(x) by {
                let j = choose|j: int| 0 <= j < rest.len() && rest[j] == x;
                assert(reqs[j + 1] == x);
            }
        }
        assert(forall|x: IdSeq| #[trigger] reqs.contains(x) ==> x == d || rest.contains(x)) by {
            assert forall|x: IdSeq| #[trigger] reqs.contains(x) implies x == d || rest.contains(
                x,
            ) by {
                let j = choose|j: int| 0 <= j < reqs.len() && reqs[j] == x;
                if j > 0 {
                    assert(rest[j - 1] == x);
                }
            }
        }
        lemma_satisfy_ok(pend2, key, rest, acc2);
        assert(forall|x: IdSeq| #[trigger] acc2.contains(x) <==> acc.contains(x) || (nd.ready()
            && x == d)) by {
            crate::ids::lemma_add_unique_props(acc, d);
            if nd.ready() && acc.contains(d) {
                assert forall|x: IdSeq| #[trigger] acc2.contains(x) implies acc.contains(x) || (
                nd.ready() && x == d) by {
                    let j = choose|j: int| 0 <= j < acc2.len() && acc2[j] == x;
                    if j < acc.len() {
                        assert(acc[j] == x);
                    }
                }
                assert forall|x: IdSeq| acc.contains(x) implies #[trigger] acc2.contains(x) by {
                    let j = choose|j: int| 0 <= j < acc.len() && acc[j] == x;
                    assert(acc2[j] == x);
                }
            }
        }
        // assemble the guarantee for the whole list from the one for its tail
        assert(p2.dom() == pend.dom()) by {
            assert(pend2.dom() =~= pend.dom());
        }
        assert forall|x: IdSeq|
            pend.dom().contains(x) && !reqs.contains(x) implies (#[trigger] p2[x]) == pend[x] by {
            assert(!rest.contains(x) && x != d);
            assert(pend2[x] == pend[x]);
        }
        assert forall|x: IdSeq|
            #[trigger] reqs.contains(x) implies pend.dom().contains(x) && pend[x].deps.contains(
            key,
        ) && p2[x] == pend[x].satisfied(key) by {
            if x == d {
                assert(!rest.contains(d));
                assert(p2[d] == pend2[d]);
            } else {
                assert(rest.contains(x));
                assert(pend2[x] == pend[x]);
            }
        }
        assert forall|x: IdSeq|
            #[trigger] acc_out.contains(x) <==> acc.contains(x) || (reqs.contains(x)
                && pend.dom().contains(x) && pend[x].satisfied(key).ready()) by {
            assert(acc_out.contains(x) <==> acc2.contains(x) || (rest.contains(x)
                && pend2.dom().contains(x) && pend2[x].satisfied(key).ready()));
            if rest.contains(x) {
                assert(x != d);
                assert(pend2[x] == pend[x]);
            }
            if x == d {
                assert(!rest.contains(d));
            }
        }
        if acc.no_duplicates() && (forall|x: IdSeq| acc.contains(x) ==> !reqs.contains(x)) {
            if nd.ready() {
                assert(!acc.contains(d));
                crate::ids::lemma_push_unique(acc, d);
            }
            assert(forall|x: IdSeq| acc2.contains(x) ==> !rest.contains(x));
        }
    }
}

/// A successful cascade on a sound lattice whose only ready pending nodes
/// are exactly the queued ones leaves the lattice sound and settled: every
/// node then sits on the side its readiness demands.
pub proof fn lemma_cascade_settled(l: LatticeView, queue: Seq<IdSeq>)
    requires
        l.inv(),
        l.fulfilled_ready(),
        queue.no_duplicates(),
        forall|q: IdSeq|
            #[trigger] queue.contains(q) ==> l.pending.dom().contains(q)
                && l.pending[q].ready(),
        forall|k: IdSeq|
            l.pending.dom().contains(k) && !queue.contains(k) ==> !(
            #[trigger] l.pending[k]).ready(),
        cascade_spec(l, queue).1 is Ok,
    ensures
        cascade_spec(l, queue).0.inv(),
        cascade_spec(l, queue).0.settled(),
    decreases l.pending.dom().len(), queue.len(),
{
    if queue.len() == 0 {
    } else {
        let k = queue[0];
        assert(queue.contains(k));
        let nk = l.pending[k];
        let rest = l.pending.remove(k);
        let step = satisfy_spec(rest, k, nk.reqs, Seq::empty());
        lemma_satisfy_spec_dom(rest, k, nk.reqs, Seq::empty());
        assert(rest.dom() =~= l.pending.dom().remove(k));
        assert(step.2 is Ok);
        assert(nk.reqs.no_duplicates());
        lemma_satisfy_ok(rest, k, nk.reqs, Seq::empty());
        let p2 = step.0;
        let found = step.1;
        let l2 = LatticeView { pending: p2, fulfilled: l.fulfilled.insert(k, nk) };
        let tail = queue.drop_first();
        let queue2 = tail + found;
        assert(cascade_spec(l, queue).0 == cascade_spec(l2, queue2).0);
        assert(cascade_spec(l, queue).1 == cascade_spec(l2, queue2).1);

        assert(forall|x: IdSeq| tail.contains(x) ==> queue.contains(x) && x != k) by {
            assert forall|x: IdSeq| tail.contains(x) implies queue.contains(x) && x != k by {
                let j = choose|j: int| 0 <= j < tail.len() && tail[j] == x;
                assert(queue[j + 1] == x);
            }
        }
        assert(forall|x: IdSeq| queue.contains(x) ==> x == k || tail.contains(x)) by {
            assert forall|x: IdSeq| queue.contains(x) implies x == k || tail.contains(x) by {
                let j = choose|j: int| 0 <= j < queue.len() && queue[j] == x;
                if j > 0 {
                    assert(tail[j - 1] == x);
                }
            }
        }
        assert(tail.no_duplicates());
        // a queued node is ready, so it lists no unmet prerequisite and
        // cannot be among the dependents that were just satisfied
        assert forall|x: IdSeq| tail.contains(x) implies !nk.reqs.contains(x) by {
            if nk.reqs.contains(x) {
                assert(rest[x].deps.contains(k));
                assert(l.pending[x].ready());
            }
        }
        assert forall|x: IdSeq| found.contains(x) implies rest.dom().contains(x)
            && p2[x] == rest[x].satisfied(k) && p2[x].ready() && !rest[x].ready() by {
            assert(nk.reqs.contains(x));
            assert(rest[x].deps.contains(k));
        }
        assert(found.no_duplicates());
        assert(forall|x: IdSeq| !(tail.contains(x) && found.contains(x))) by {
            assert forall|x: IdSeq| tail.contains(x) implies !found.contains(x) by {
                if found.contains(x) {
                    assert(l.pending[x].ready());
                    assert(!rest[x].ready());
                }
            }
        }
        crate::ids::lemma_concat_unique(tail, found);
        crate::ids::lemma_concat_contains(tail, found);
        assert(queue2.no_duplicates());

        assert(l2.inv()) by {
            assert(p2.dom() =~= l.pending.dom().remove(k));
            assert forall|x: IdSeq|
                p2.dom().contains(x) implies (#[trigger] p2[x]).wf() && p2[x].id == x by {
                if nk.reqs.contains(x) {
                    assert(p2[x] == rest[x].satisfied(k));
                    assert(rest[x] == l.pending[x]);
                    assert(rest[x].wf());
                    assert(!rest[x].fulf.contains(k));
                    assert(p2[x].deps =~= rest[x].deps.remove(k));
                    assert(p2[x].fulf =~= rest[x].fulf.insert(k));
                    assert(p2[x].deps.disjoint(p2[x].fulf));
                } else {
                    assert(p2[x] == rest[x]);
                    assert(rest[x] == l.pending[x]);
                }
            }
            assert(l2.fulfilled.dom() =~= l.fulfilled.dom().insert(k));
        }
        assert(l2.fulfilled_ready()) by {
            assert(nk.ready());
        }
        assert forall|q: IdSeq|
            queue2.contains(q) implies l2.pending.dom().contains(q) && (
        #[trigger] l2.pending[q]).ready() by {
            if tail.contains(q) {
                let j = choose|j: int| 0 <= j < tail.len() && tail[j] == q;
                assert(queue[j + 1] == q);
                assert(queue.contains(q));
                assert(q != k);
                assert(l.pending.dom().contains(q) && l.pending[q].ready());
                assert(rest.dom().contains(q));
                assert(!nk.reqs.contains(q));
                assert(p2[q] == rest[q]);
            } else {
                assert(found.contains(q));
            }
        }
        assert forall|x: IdSeq|
            l2.pending.dom().contains(x) && !queue2.contains(x) implies !(
        #[trigger] l2.pending[x]).ready() by {
            assert(!tail.contains(x) && !found.contains(x));
            assert(rest.dom().contains(x));
            if nk.reqs.contains(x) {
                assert(p2[x] == rest[x].satisfied(k));
                if p2[x].ready() {
                    assert(found.contains(x));
                }
            } else {
                assert(p2[x] == rest[x]);
                assert(rest[x] == l.pending[x]);
                if p2[x].ready() {
                    assert(queue.contains(x));
                    assert(x != k);
                    assert(tail.contains(x));
                }
            }
        }
        assert(l2.pending.dom().len() < l.pending.dom().len());
        lemma_cascade_settled(l2, queue2);
    }
}

/// The cascade: fulfill each queued identifier in turn.  Fulfilling one
/// identifier removes its node from `pending`, satisfies the matching edge in
/// every dependent, queues the dependents that thereby became ready, and
/// files the node as fulfilled.  A failing step leaves its node pending, its
/// already-satisfied edges standing, and abandons the rest of the queue.
pub open spec fn cascade_spec(l: LatticeView, queue: Seq<IdSeq>) -> (
    LatticeView,
    Result<(), LatticeError>,
)
    decreases l.pending.dom().len(), queue.len(),
        when l.pending.dom().finite()
{
    if queue.len() == 0 {
        (l, Ok(()))
    } else {
        let k = queue[0];
        if !l.pending.dom().contains(k) {
            (l, Err(LatticeError::InconsistentGraph))
        } else {
            let nk = l.pending[k];
            let rest = l.pending.remove(k);
            let step = satisfy_spec(rest, k, nk.reqs, Seq::empty());
            if step.2 is Err {
                (LatticeView { pending: step.0.insert(k, nk), fulfilled: l.fulfilled }, step.2)
            } else {
                proof {
                    lemma_satisfy_spec_dom(rest, k, nk.reqs, Seq::empty());
                    assert(rest.dom() =~= l.pending.dom().remove(k));
                }
                cascade_spec(
                    LatticeView { pending: step.0, fulfilled: l.fulfilled.insert(k, nk) },
                    queue.drop_first() + step.1,
                )
            }
        }
    }
}

/// Fulfilling an identifier: an error when it is not pending, otherwise the
/// cascade started on it alone.
pub open spec fn fulfill_spec(l: LatticeView, key: IdSeq) -> (
    LatticeView,
    Result<(), LatticeError>,
) {
    if !l.pending.dom().contains(key) {
        (l, Err(LatticeError::NotFound))
    } else {
        cascade_spec(l, seq![key])
    }
}

/// Registering, on the back-edge side only, that `dependent` lists `target`
/// as a prerequisite.  The answer says whether the relationship still blocks:
/// `true` when `target` is pending, `false` when it is already fulfilled.
pub open spec fn update_required_by_spec(l: LatticeView, target: IdSeq, dependent: IdSeq) -> (
    LatticeView,
    Result<bool, LatticeError>,
) {
    if l.pending.dom().contains(target) {
        (
            LatticeView {
                pending: l.pending.insert(target, l.pending[target].with_req(dependent)),
                ..l
            },
            Ok(true),
        )
    } else if l.fulfilled.dom().contains(target) {
        (
            LatticeView {
                fulfilled: l.fulfilled.insert(target, l.fulfilled[target].with_req(dependent)),
                ..l
            },
            Ok(false),
        )
    } else {
        (l, Err(LatticeError::NotFound))
    }
}

/// Registering, on the forward-edge side only, that `target` depends on
/// `dependency`.  A fulfilled target is taken out, given the edge, and
/// re-filed by the placement rule: with a genuinely new, unmet prerequisite
/// it reopens as pending.
pub open spec fn update_depends_on_spec(l: LatticeView, target: IdSeq, dependency: IdSeq) -> (
    LatticeView,
    Result<(), LatticeError>,
) {
    if l.pending.dom().contains(target) {
        (
            LatticeView {
                pending: l.pending.insert(target, l.pending[target].with_dep(dependency)),
                ..l
            },
            Ok(()),
        )
    } else if l.fulfilled.dom().contains(target) {
        let n2 = l.fulfilled[target].with_dep(dependency);
        let l2 = LatticeView { fulfilled: l.fulfilled.remove(target), ..l };
        (l2.place(n2), Ok(()))
    } else {
        (l, Err(LatticeError::NotFound))
    }
}

/// Replacing the payload of the pending node `key`.  The replacement must
/// carry the same identifier; if the node thereby becomes ready it is
/// fulfilled at once, cascade included.
pub open spec fn update_value_spec(
    l: LatticeView,
    key: IdSeq,
    new_id: IdSeq,
    new_complete: bool,
) -> (LatticeView, Result<(), LatticeError>) {
    if !l.pending.dom().contains(key) {
        (l, Err(LatticeError::NotFound))
    } else if new_id != key {
        (l, Err(LatticeError::IdentityMismatch))
    } else {
        let n2 = l.pending[key].with_complete(new_complete);
        let l2 = LatticeView { pending: l.pending.insert(key, n2), ..l };
        if n2.ready() {
            fulfill_spec(l2, key)
        } else {
            (l2, Ok(()))
        }
    }
}

/// The second half of `add_requirement_spec`: the back-edge is recorded and
/// `still_required` says whether the prerequisite still blocks; now the
/// forward edge is given to `requirer`, wherever it resides.
pub open spec fn add_requirement_finish(
    l: LatticeView,
    requirer: IdSeq,
    prerequisite: IdSeq,
    still_required: bool,
) -> (LatticeView, Result<(), LatticeError>) {
    if l.pending.dom().contains(requirer) {
        let n = l.pending[requirer];
        let n2 = if still_required {
            n.with_dep(prerequisite)
        } else if n.fulf.contains(prerequisite) {
            n
        } else {
            n.with_dep(prerequisite).satisfied(prerequisite)
        };
        (LatticeView { pending: l.pending.insert(requirer, n2), ..l }, Ok(()))
    } else if l.fulfilled.dom().contains(requirer) {
        if still_required {
            let n2 = l.fulfilled[requirer].with_dep(prerequisite);
            let l2 = LatticeView { fulfilled: l.fulfilled.remove(requirer), ..l };
            (l2.place(n2), Ok(()))
        } else {
            let n = l.fulfilled[requirer];
            let n2 = if n.fulf.contains(prerequisite) {
                n
            } else {
                n.with_dep(prerequisite).satisfied(prerequisite)
            };
            (LatticeView { fulfilled: l.fulfilled.insert(requirer, n2), ..l }, Ok(()))
        }
    } else {
        (l, Err(LatticeError::NotFound))
    }
}

/// Wiring the full bidirectional edge "`requirer` depends on `prerequisite`"
/// in one step.  The back-edge is recorded first; the forward edge is then
/// added as unmet or as already satisfied according to where the
/// prerequisite resides, reopening a fulfilled requirer that acquired a
/// genuinely new, unmet prerequisite.
pub open spec fn add_requirement_spec(l: LatticeView, requirer: IdSeq, prerequisite: IdSeq) -> (
    LatticeView,
    Result<(), LatticeError>,
) {
    if l.pending.dom().contains(prerequisite) {
        let l1 = LatticeView {
            pending: l.pending.insert(prerequisite, l.pending[prerequisite].with_req(requirer)),
            ..l
        };
        add_requirement_finish(l1, requirer, prerequisite, true)
    } else if l.fulfilled.dom().contains(prerequisite) {
        let l1 = LatticeView {
            fulfilled: l.fulfilled.insert(
                prerequisite,
                l.fulfilled[prerequisite].with_req(requirer),
            ),
            ..l
        };
        add_requirement_finish(l1, requirer, prerequisite, false)
    } else {
        (l, Err(LatticeError::NotFound))
    }
}

/// Bulk construction, first half: every node is filed as pending, a later
/// node displacing an earlier one with the same identifier.
pub open spec fn insert_all_spec(l: LatticeView, nodes: Seq<NodeView>) -> LatticeView
    decreases nodes.len(),
{
    if nodes.len() == 0 {
        l
    } else {
        insert_all_spec(
            LatticeView { pending: l.pending.insert(nodes[0].id, nodes[0]), ..l },
            nodes.drop_first(),
        )
    }
}

/// The identifiers of the nodes that are already ready when handed in, in
/// order.
pub open spec fn ready_ids(nodes: Seq<NodeView>) -> Seq<IdSeq>
    decreases nodes.len(),
{
    if nodes.len() == 0 {
        Seq::empty()
    } else {
        let rest = ready_ids(nodes.drop_first());
        if nodes[0].ready() {
            seq![nodes[0].id] + rest
        } else {
            rest
        }
    }
}

/// Bulk construction, second half: fulfill each recorded identifier in turn,
/// pressing on past failures.
pub open spec fn settle_spec(l: LatticeView, keys: Seq<IdSeq>) -> LatticeView
    decreases keys.len(),
{
    if keys.len() == 0 {
        l
    } else {
        settle_spec(fulfill_spec(l, keys[0]).0, keys.drop_first())
    }
}

/// Bulk construction from a list of nodes: insert them all as pending, then
/// let the ones that arrived ready settle the graph.
pub open spec fn from_nodes_spec(nodes: Seq<NodeView>) -> LatticeView {
    let l0 = insert_all_spec(
        LatticeView { pending: Map::empty(), fulfilled: Map::empty() },
        nodes,
    );
    settle_spec(l0, ready_ids(nodes))
}

} // verus!
