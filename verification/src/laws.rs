//! The laws of the lattice: properties that relate several operations or
//! every reachable state, each stated over the transition functions and
//! proved once and for all.

use vstd::prelude::*;
use crate::errors::LatticeError;
use crate::transition::{
    add_requirement_spec, cascade_spec, fulfill_spec, lemma_cascade_settled, satisfy_spec,
    update_depends_on_spec, update_required_by_spec, update_value_spec,
};
use crate::view::{IdSeq, LatticeView};

verus! {

/// Partition: under the structural invariant every node of the lattice
/// resides in exactly one of the two collections.  Every operation of the
/// lattice preserves that invariant, so this holds of every reachable state.
pub proof fn lemma_partition(l: LatticeView, k: IdSeq)
    requires
        l.inv(),
        l.has_node(k),
    ensures
        l.pending.dom().contains(k) <==> !l.fulfilled.dom().contains(k),
{
}

/// Fulfillment correctness: in a settled lattice a node is in the fulfilled
/// collection exactly when its prerequisites are all satisfied and its
/// payload reports complete.
pub proof fn lemma_fulfillment_correctness(l: LatticeView, k: IdSeq)
    requires
        l.inv(),
        l.settled(),
        l.has_node(k),
    ensures
        l.fulfilled.dom().contains(k) <==> l.node_at(k).ready(),
{
}

/// Fulfilling a ready node in an otherwise settled lattice leaves the
/// lattice sound and settled whenever the cascade succeeds.
pub proof fn lemma_fulfill_settled(l: LatticeView, key: IdSeq)
    requires
        l.inv(),
        l.fulfilled_ready(),
        forall|k: IdSeq|
            l.pending.dom().contains(k) && k != key ==> !(#[trigger] l.pending[k]).ready(),
        l.pending.dom().contains(key) ==> l.pending[key].ready(),
        fulfill_spec(l, key).1 is Ok,
    ensures
        fulfill_spec(l, key).0.inv(),
        fulfill_spec(l, key).0.settled(),
{
    assert(l.pending.dom().contains(key));
    let q = seq![key];
    assert(forall|x: IdSeq| #[trigger] q.contains(x) <==> x == key) by {
        assert(q[0] == key);
        assert forall|x: IdSeq| #[trigger] q.contains(x) implies x == key by {
            let j = choose|j: int| 0 <= j < q.len() && q[j] == x;
        }
    }
    assert(q.no_duplicates());
    lemma_cascade_settled(l, q);
}

/// Registering a back-edge never unsettles the lattice: the dependent lists
/// change, readiness does not.
pub proof fn lemma_update_required_by_settled(l: LatticeView, target: IdSeq, dependent: IdSeq)
    requires
        l.settled(),
    ensures
        update_required_by_spec(l, target, dependent).0.settled(),
{
    let r = update_required_by_spec(l, target, dependent).0;
    if l.pending.dom().contains(target) {
        assert forall|k: IdSeq|
            r.pending.dom().contains(k) implies !(#[trigger] r.pending[k]).ready() by {
            if k == target {
                assert(r.pending[k] == l.pending[target].with_req(dependent));
                assert(r.pending[k].ready() == l.pending[target].ready());
            }
        }
    } else if l.fulfilled.dom().contains(target) {
        assert forall|k: IdSeq|
            r.fulfilled.dom().contains(k) implies (#[trigger] r.fulfilled[k]).ready() by {
            if k == target {
                assert(r.fulfilled[k] == l.fulfilled[target].with_req(dependent));
                assert(r.fulfilled[k].ready() == l.fulfilled[target].ready());
            }
        }
    }
}

/// Registering a forward edge keeps the lattice settled: a pending target
/// stays blocked, and a fulfilled target is re-filed exactly where the
/// placement rule puts it.
pub proof fn lemma_update_depends_on_settled(l: LatticeView, target: IdSeq, dependency: IdSeq)
    requires
        l.settled(),
    ensures
        update_depends_on_spec(l, target, dependency).0.settled(),
{
    let r = update_depends_on_spec(l, target, dependency).0;
    if l.pending.dom().contains(target) {
        assert forall|k: IdSeq|
            r.pending.dom().contains(k) implies !(#[trigger] r.pending[k]).ready() by {
            if k == target {
                let n = l.pending[target];
                let n2 = n.with_dep(dependency);
                if n2 != n {
                    assert(n2.deps.contains(dependency));
                    assert(!n2.deps.is_empty());
                }
            }
        }
    } else if l.fulfilled.dom().contains(target) {
        let n = l.fulfilled[target];
        let n2 = n.with_dep(dependency);
        let l2 = LatticeView { fulfilled: l.fulfilled.remove(target), ..l };
        if !n2.ready() {
            assert(r == LatticeView { pending: l2.pending.insert(n2.id, n2), ..l2 });
            assert forall|k: IdSeq|
                r.pending.dom().contains(k) implies !(#[trigger] r.pending[k]).ready() by {}
        } else {
            assert(r == LatticeView { fulfilled: l2.fulfilled.insert(n2.id, n2), ..l2 });
        }
    }
}

/// A successful payload update keeps the lattice sound and settled: either
/// the node stays blocked in `pending`, or it became ready and the
/// fulfillment cascade files everything where it belongs.
pub proof fn lemma_update_value_settled(
    l: LatticeView,
    key: IdSeq,
    new_id: IdSeq,
    new_complete: bool,
)
    requires
        l.inv(),
        l.settled(),
        update_value_spec(l, key, new_id, new_complete).1 is Ok,
    ensures
        update_value_spec(l, key, new_id, new_complete).0.settled(),
{
    assert(l.pending.dom().contains(key));
    assert(new_id == key);
    let n2 = l.pending[key].with_complete(new_complete);
    let l2 = LatticeView { pending: l.pending.insert(key, n2), ..l };
    assert(l2.inv()) by {
        assert(l2.pending.dom() =~= l.pending.dom());
        assert(n2.wf() && n2.id == key);
    }
    if n2.ready() {
        assert forall|k: IdSeq|
            l2.pending.dom().contains(k) && k != key implies !(
        #[trigger] l2.pending[k]).ready() by {
            assert(l2.pending[k] == l.pending[k]);
        }
        lemma_fulfill_settled(l2, key);
    } else {
        assert forall|k: IdSeq|
            l2.pending.dom().contains(k) implies !(#[trigger] l2.pending[k]).ready() by {
            if k != key {
                assert(l2.pending[k] == l.pending[k]);
            }
        }
    }
}

/// Wiring an edge keeps a settled lattice settled, except in one corner: a
/// pending requirer that already listed an unmet edge on a now-fulfilled
/// prerequisite may have exactly that edge satisfied and thereby become
/// ready without being fulfilled; the last hypothesis rules that corner out.
pub proof fn lemma_add_requirement_settled(l: LatticeView, requirer: IdSeq, prerequisite: IdSeq)
    requires
        l.inv(),
        l.settled(),
        add_requirement_spec(l, requirer, prerequisite).1 is Ok,
        l.fulfilled.dom().contains(prerequisite) && l.pending.dom().contains(requirer)
            && l.pending[requirer].deps.contains(prerequisite) ==> !l.pending[requirer].satisfied(
            prerequisite,
        ).ready(),
    ensures
        add_requirement_spec(l, requirer, prerequisite).0.settled(),
{
    let r = add_requirement_spec(l, requirer, prerequisite).0;
    if l.pending.dom().contains(prerequisite) {
        let l1 = LatticeView {
            pending: l.pending.insert(
                prerequisite,
                l.pending[prerequisite].with_req(requirer),
            ),
            ..l
        };
        assert(l1.settled()) by {
            assert forall|k: IdSeq|
                l1.pending.dom().contains(k) implies !(#[trigger] l1.pending[k]).ready() by {
                if k == prerequisite {
                    assert(l1.pending[k].ready() == l.pending[prerequisite].ready());
                }
            }
        }
        if l1.pending.dom().contains(requirer) {
            let n = l1.pending[requirer];
            let n2 = n.with_dep(prerequisite);
            assert forall|k: IdSeq|
                r.pending.dom().contains(k) implies !(#[trigger] r.pending[k]).ready() by {
                if k == requirer {
                    if n2 != n {
                        assert(n2.deps.contains(prerequisite));
                        assert(!n2.deps.is_empty());
                    }
                }
            }
        } else {
            let n = l1.fulfilled[requirer];
            let n2 = n.with_dep(prerequisite);
            let l2 = LatticeView { fulfilled: l1.fulfilled.remove(requirer), ..l1 };
            assert(l2.settled());
            if !n2.ready() {
                assert(r == LatticeView { pending: l2.pending.insert(n2.id, n2), ..l2 });
            } else {
                assert(r == LatticeView { fulfilled: l2.fulfilled.insert(n2.id, n2), ..l2 });
            }
        }
    } else {
        assert(l.fulfilled.dom().contains(prerequisite));
        let l1 = LatticeView {
            fulfilled: l.fulfilled.insert(
                prerequisite,
                l.fulfilled[prerequisite].with_req(requirer),
            ),
            ..l
        };
        assert(l1.settled()) by {
            assert forall|k: IdSeq|
                l1.fulfilled.dom().contains(k) implies (#[trigger] l1.fulfilled[k]).ready() by {
                if k == prerequisite {
                    assert(l1.fulfilled[k].ready() == l.fulfilled[prerequisite].ready());
                }
            }
        }
        if l1.pending.dom().contains(requirer) {
            assert(requirer != prerequisite);
            let n = l1.pending[requirer];
            assert(n == l.pending[requirer]);
            let n2 = if n.fulf.contains(prerequisite) {
                n
            } else {
                n.with_dep(prerequisite).satisfied(prerequisite)
            };
            assert(!n2.ready()) by {
                if !n.fulf.contains(prerequisite) {
                    if n.deps.contains(prerequisite) {
                        assert(n2 == n.satisfied(prerequisite));
                    } else {
                        assert(n2.deps =~= n.deps);
                        assert(n2.ready() == n.ready());
                    }
                }
            }
            assert forall|k: IdSeq|
                r.pending.dom().contains(k) implies !(#[trigger] r.pending[k]).ready() by {}
        } else {
            let n = l1.fulfilled[requirer];
            assert(n.ready());
            let n2 = if n.fulf.contains(prerequisite) {
                n
            } else {
                n.with_dep(prerequisite).satisfied(prerequisite)
            };
            assert(n2.ready()) by {
                if !n.fulf.contains(prerequisite) {
                    assert(!n.deps.contains(prerequisite));
                    assert(n2.deps =~= n.deps);
                }
            }
            assert forall|k: IdSeq|
                r.fulfilled.dom().contains(k) implies (#[trigger] r.fulfilled[k]).ready() by {}
        }
    }
}

/// Cascade completeness: fulfilling a node also fulfills, within the same
/// call, a whole chain of complete nodes each waiting only on the previous
/// link — no manual re-invocation is needed.
pub proof fn lemma_cascade_chain(l: LatticeView, a: IdSeq, b: IdSeq, c: IdSeq)
    requires
        l.inv(),
        l.pending.dom().contains(a),
        l.pending.dom().contains(b),
        l.pending.dom().contains(c),
        a != b && b != c && a != c,
        l.pending[a].reqs == seq![b],
        l.pending[b].reqs == seq![c],
        l.pending[c].reqs == Seq::<IdSeq>::empty(),
        l.pending[b].deps == Set::<IdSeq>::empty().insert(a),
        l.pending[c].deps == Set::<IdSeq>::empty().insert(b),
        l.pending[b].complete,
        l.pending[c].complete,
    ensures
        fulfill_spec(l, a).1 == Ok::<(), LatticeError>(()),
        fulfill_spec(l, a).0.fulfilled.dom().contains(a),
        fulfill_spec(l, a).0.fulfilled.dom().contains(b),
        fulfill_spec(l, a).0.fulfilled.dom().contains(c),
        !fulfill_spec(l, a).0.pending.dom().contains(a),
        !fulfill_spec(l, a).0.pending.dom().contains(b),
        !fulfill_spec(l, a).0.pending.dom().contains(c),
{
    let empty_ids = Seq::<IdSeq>::empty();
    // step one: fulfilling a satisfies b's only prerequisite; b becomes ready
    let na = l.pending[a];
    let p0 = l.pending.remove(a);
    assert(p0[b] == l.pending[b] && p0[c] == l.pending[c]);
    assert(p0.dom().contains(b));
    assert(p0[b].deps.contains(a));
    let nb1 = p0[b].satisfied(a);
    assert(nb1.deps =~= Set::<IdSeq>::empty());
    assert(nb1.ready());
    let p1 = p0.insert(b, nb1);
    assert(na.reqs.drop_first() =~= empty_ids);
    assert(satisfy_spec(p1, a, empty_ids, empty_ids.push(b)) == (
        p1,
        empty_ids.push(b),
        Ok::<(), LatticeError>(()),
    ));
    assert(satisfy_spec(p0, a, na.reqs, empty_ids) == (
        p1,
        empty_ids.push(b),
        Ok::<(), LatticeError>(()),
    ));
    let l1 = LatticeView { pending: p1, fulfilled: l.fulfilled.insert(a, na) };
    assert(l.pending.dom().finite());
    assert(p1.dom().finite()) by {
        assert(p1.dom() =~= l.pending.dom().remove(a));
    }
    assert(cascade_spec(l, seq![a]) == cascade_spec(l1, seq![a].drop_first() + empty_ids.push(b)));
    assert(seq![a].drop_first() + empty_ids.push(b) =~= seq![b]);
    // step two: fulfilling b satisfies c's only prerequisite; c becomes ready
    assert(nb1.reqs == seq![c]);
    let p2 = p1.remove(b);
    assert(p2[c] == l.pending[c]);
    assert(p2.dom().contains(c));
    assert(p2[c].deps.contains(b));
    let nc1 = p2[c].satisfied(b);
    assert(nc1.deps =~= Set::<IdSeq>::empty());
    assert(nc1.ready());
    let p3 = p2.insert(c, nc1);
    assert(nb1.reqs.drop_first() =~= empty_ids);
    assert(satisfy_spec(p3, b, empty_ids, empty_ids.push(c)) == (
        p3,
        empty_ids.push(c),
        Ok::<(), LatticeError>(()),
    ));
    assert(satisfy_spec(p2, b, nb1.reqs, empty_ids) == (
        p3,
        empty_ids.push(c),
        Ok::<(), LatticeError>(()),
    ));
    let l2 = LatticeView { pending: p3, fulfilled: l1.fulfilled.insert(b, nb1) };
    assert(p3.dom().finite()) by {
        assert(p3.dom() =~= p1.dom().remove(b));
    }
    assert(cascade_spec(l1, seq![b]) == cascade_spec(
        l2,
        seq![b].drop_first() + empty_ids.push(c),
    ));
    assert(seq![b].drop_first() + empty_ids.push(c) =~= seq![c]);
    // step three: c waits on nothing further; the cascade ends
    assert(nc1.reqs == Seq::<IdSeq>::empty());
    let p4 = p3.remove(c);
    assert(satisfy_spec(p4, c, nc1.reqs, empty_ids) == (p4, empty_ids, Ok::<(), LatticeError>(())));
    let l3 = LatticeView { pending: p4, fulfilled: l2.fulfilled.insert(c, nc1) };
    assert(p4.dom().finite()) by {
        assert(p4.dom() =~= p3.dom().remove(c));
    }
    assert(cascade_spec(l2, seq![c]) == cascade_spec(l3, seq![c].drop_first() + empty_ids));
    assert(seq![c].drop_first() + empty_ids =~= Seq::<IdSeq>::empty());
    assert(cascade_spec(l3, Seq::<IdSeq>::empty()) == (l3, Ok::<(), LatticeError>(())));
    assert(fulfill_spec(l, a) == (l3, Ok::<(), LatticeError>(())));
}

/// Reopening: a fulfilled node with no listed dependents that acquires a
/// genuinely new, still-pending prerequisite moves back into `pending` with
/// exactly that one unmet edge; fulfilling the prerequisite then returns it
/// to `fulfilled`.
pub proof fn lemma_reopening(l: LatticeView, f: IdSeq, g: IdSeq)
    requires
        l.inv(),
        l.fulfilled_ready(),
        l.fulfilled.dom().contains(f),
        l.pending.dom().contains(g),
        l.fulfilled[f].reqs == Seq::<IdSeq>::empty(),
        l.pending[g].reqs == Seq::<IdSeq>::empty(),
        !l.fulfilled[f].fulf.contains(g),
    ensures
        add_requirement_spec(l, f, g).1 == Ok::<(), LatticeError>(()),
        add_requirement_spec(l, f, g).0.pending.dom().contains(f),
        !add_requirement_spec(l, f, g).0.fulfilled.dom().contains(f),
        add_requirement_spec(l, f, g).0.pending[f].deps == Set::<IdSeq>::empty().insert(g),
        fulfill_spec(add_requirement_spec(l, f, g).0, g).1 == Ok::<(), LatticeError>(()),
        fulfill_spec(add_requirement_spec(l, f, g).0, g).0.fulfilled.dom().contains(f),
        fulfill_spec(add_requirement_spec(l, f, g).0, g).0.fulfilled.dom().contains(g),
        !fulfill_spec(add_requirement_spec(l, f, g).0, g).0.pending.dom().contains(f),
        !fulfill_spec(add_requirement_spec(l, f, g).0, g).0.pending.dom().contains(g),
{
    let empty_ids = Seq::<IdSeq>::empty();
    assert(f != g);
    let nf = l.fulfilled[f];
    assert(nf.ready() && nf.deps.is_empty() && nf.complete);
    // the edge registration: g gains the back-edge, f reopens with deps {g}
    let ng1 = l.pending[g].with_req(f);
    assert(ng1.reqs =~= empty_ids.push(f));
    let l1 = LatticeView { pending: l.pending.insert(g, ng1), ..l };
    let nf2 = l1.fulfilled[f].with_dep(g);
    assert(l1.fulfilled[f] == nf);
    assert(!nf.deps.contains(g));
    assert(nf2.deps =~= Set::<IdSeq>::empty().insert(g));
    assert(!nf2.ready()) by {
        assert(nf2.deps.contains(g));
    }
    let l2 = LatticeView { fulfilled: l1.fulfilled.remove(f), ..l1 };
    let la = add_requirement_spec(l, f, g).0;
    assert(!l1.pending.dom().contains(f));
    assert(la == LatticeView { pending: l2.pending.insert(f, nf2), ..l2 });
    assert(la.pending[f] == nf2);
    // fulfilling g satisfies f's lone prerequisite and refiles both
    let ng = la.pending[g];
    assert(ng == ng1);
    let p0 = la.pending.remove(g);
    assert(p0[f] == nf2);
    assert(p0.dom().contains(f));
    assert(p0[f].deps.contains(g));
    let nf3 = p0[f].satisfied(g);
    assert(nf3.deps =~= Set::<IdSeq>::empty());
    assert(nf3.ready());
    let p1 = p0.insert(f, nf3);
    assert(ng.reqs.drop_first() =~= empty_ids);
    assert(satisfy_spec(p1, g, empty_ids, empty_ids.push(f)) == (
        p1,
        empty_ids.push(f),
        Ok::<(), LatticeError>(()),
    ));
    assert(satisfy_spec(p0, g, ng.reqs, empty_ids) == (
        p1,
        empty_ids.push(f),
        Ok::<(), LatticeError>(()),
    ));
    let lb = LatticeView { pending: p1, fulfilled: la.fulfilled.insert(g, ng) };
    assert(la.pending.dom().finite()) by {
        assert(la.pending.dom() =~= l.pending.dom().insert(f));
    }
    assert(p1.dom().finite()) by {
        assert(p1.dom() =~= la.pending.dom().remove(g));
    }
    assert(cascade_spec(la, seq![g]) == cascade_spec(lb, seq![g].drop_first() + empty_ids.push(
        f,
    )));
    assert(seq![g].drop_first() + empty_ids.push(f) =~= seq![f]);
    // f's own dependent list is empty, so the cascade ends there
    assert(nf3.reqs =~= Seq::<IdSeq>::empty());
    let p2 = p1.remove(f);
    assert(satisfy_spec(p2, f, nf3.reqs, empty_ids) == (p2, empty_ids, Ok::<(), LatticeError>(())));
    let lc = LatticeView { pending: p2, fulfilled: lb.fulfilled.insert(f, nf3) };
    assert(p2.dom().finite()) by {
        assert(p2.dom() =~= p1.dom().remove(f));
    }
    assert(cascade_spec(lb, seq![f]) == cascade_spec(lc, seq![f].drop_first() + empty_ids));
    assert(seq![f].drop_first() + empty_ids =~= Seq::<IdSeq>::empty());
    assert(cascade_spec(lc, Seq::<IdSeq>::empty()) == (lc, Ok::<(), LatticeError>(())));
    assert(fulfill_spec(la, g) == (lc, Ok::<(), LatticeError>(())));
}

/// An already-satisfied edge: wiring an edge between two fulfilled nodes
/// leaves both fulfilled; the edge is recorded, on the prerequisite as a
/// dependent and on the requirer as an already-satisfied prerequisite, and
/// nothing else moves.
pub proof fn lemma_already_satisfied_edge(l: LatticeView, requirer: IdSeq, prerequisite: IdSeq)
    requires
        l.inv(),
        l.settled(),
        l.fulfilled.dom().contains(requirer),
        l.fulfilled.dom().contains(prerequisite),
        requirer != prerequisite,
    ensures
        add_requirement_spec(l, requirer, prerequisite).1 == Ok::<(), LatticeError>(()),
        add_requirement_spec(l, requirer, prerequisite).0.pending == l.pending,
        add_requirement_spec(l, requirer, prerequisite).0.fulfilled.dom() == l.fulfilled.dom(),
        add_requirement_spec(l, requirer, prerequisite).0.fulfilled[requirer].fulf
            == l.fulfilled[requirer].fulf.insert(prerequisite),
        add_requirement_spec(l, requirer, prerequisite).0.fulfilled[requirer].deps
            == l.fulfilled[requirer].deps,
        add_requirement_spec(l, requirer, prerequisite).0.fulfilled[prerequisite].reqs
            == l.fulfilled[prerequisite].with_req(requirer).reqs,
        add_requirement_spec(l, requirer, prerequisite).0.settled(),
{
    let r = add_requirement_spec(l, requirer, prerequisite).0;
    assert(!l.pending.dom().contains(prerequisite));
    assert(!l.pending.dom().contains(requirer));
    let np1 = l.fulfilled[prerequisite].with_req(requirer);
    let l1 = LatticeView { fulfilled: l.fulfilled.insert(prerequisite, np1), ..l };
    let n = l1.fulfilled[requirer];
    assert(n == l.fulfilled[requirer]);
    assert(n.ready() && n.deps.is_empty());
    assert(!n.deps.contains(prerequisite));
    let n2 = if n.fulf.contains(prerequisite) {
        n
    } else {
        n.with_dep(prerequisite).satisfied(prerequisite)
    };
    assert(n2.deps =~= n.deps);
    assert(n2.fulf =~= n.fulf.insert(prerequisite));
    assert(n2.ready());
    assert(r == LatticeView { fulfilled: l1.fulfilled.insert(requirer, n2), ..l1 });
    assert(r.fulfilled.dom() =~= l.fulfilled.dom());
    assert(r.settled()) by {
        assert forall|k: IdSeq|
            r.fulfilled.dom().contains(k) implies (#[trigger] r.fulfilled[k]).ready() by {
            if k != requirer && k != prerequisite {
                assert(r.fulfilled[k] == l.fulfilled[k]);
            }
        }
    }
}

/// Idempotent edge insertion: registering the same edge a second time,
/// on either side, leaves the lattice exactly as the first registration
/// left it.
pub proof fn lemma_edge_insertion_idempotent(l: LatticeView, target: IdSeq, dependency: IdSeq)
    requires
        l.inv(),
    ensures
        update_required_by_spec(update_required_by_spec(l, target, dependency).0, target,
        dependency) == update_required_by_spec(l, target, dependency),
        update_depends_on_spec(update_depends_on_spec(l, target, dependency).0, target,
        dependency).0 == update_depends_on_spec(l, target, dependency).0,
{
    // the back-edge side
    if l.pending.dom().contains(target) {
        let n1 = l.pending[target].with_req(dependency);
        assert(n1.reqs.contains(dependency)) by {
            if !l.pending[target].reqs.contains(dependency) {
                assert(n1.reqs[n1.reqs.len() - 1] == dependency);
            }
        }
        assert(n1.with_req(dependency) == n1);
        let r1 = update_required_by_spec(l, target, dependency).0;
        assert(r1.pending.insert(target, n1) =~= r1.pending);
        assert(update_required_by_spec(r1, target, dependency).0 =~= r1);
    } else if l.fulfilled.dom().contains(target) {
        let n1 = l.fulfilled[target].with_req(dependency);
        assert(n1.reqs.contains(dependency)) by {
            if !l.fulfilled[target].reqs.contains(dependency) {
                assert(n1.reqs[n1.reqs.len() - 1] == dependency);
            }
        }
        assert(n1.with_req(dependency) == n1);
        let r1 = update_required_by_spec(l, target, dependency).0;
        assert(r1.fulfilled.insert(target, n1) =~= r1.fulfilled);
        assert(update_required_by_spec(r1, target, dependency).0 =~= r1);
    }
    // the forward-edge side
    if l.pending.dom().contains(target) {
        let n1 = l.pending[target].with_dep(dependency);
        assert(n1.deps.contains(dependency) || n1.fulf.contains(dependency));
        assert(n1.with_dep(dependency) == n1);
        let r1 = update_depends_on_spec(l, target, dependency).0;
        assert(r1.pending.insert(target, n1) =~= r1.pending);
        assert(update_depends_on_spec(r1, target, dependency).0 =~= r1);
    } else if l.fulfilled.dom().contains(target) {
        let n = l.fulfilled[target];
        let n1 = n.with_dep(dependency);
        assert(n1.id == target);
        assert(n1.deps.contains(dependency) || n1.fulf.contains(dependency));
        assert(n1.with_dep(dependency) == n1);
        let r1 = update_depends_on_spec(l, target, dependency).0;
        if !n1.ready() {
            assert(r1.pending.dom().contains(target));
            assert(r1.pending[target] == n1);
            assert(update_depends_on_spec(r1, target, dependency).0.pending =~= r1.pending);
            assert(update_depends_on_spec(r1, target, dependency).0 =~= r1);
        } else {
            assert(n1 == n) by {
                if n1 != n {
                    assert(n1.deps.contains(dependency));
                    assert(!n1.deps.is_empty());
                }
            }
            assert(r1.fulfilled =~= l.fulfilled);
            assert(r1.pending == l.pending);
            assert(!r1.pending.dom().contains(target));
            assert(r1.fulfilled.dom().contains(target));
            assert(update_depends_on_spec(r1, target, dependency).0.fulfilled =~= r1.fulfilled);
            assert(update_depends_on_spec(r1, target, dependency).0 =~= r1);
        }
    }
}

} // verus!
