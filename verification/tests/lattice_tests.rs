use lattice_machine::{BasicLattice, BasicNode, LatticeError, NodeType};

struct Task {
    id: String,
    done: bool,
}

impl NodeType for Task {
    fn uuid(&self) -> String {
        self.id.clone()
    }

    fn is_completed(&self) -> bool {
        self.done
    }
}

fn task(id: &str, done: bool) -> Task {
    Task { id: id.to_string(), done }
}

fn node(id: &str, done: bool, deps: &[&str], reqs: &[&str]) -> BasicNode<Task> {
    BasicNode::new(
        task(id, done),
        deps.iter().map(|s| s.to_string()).collect(),
        reqs.iter().map(|s| s.to_string()).collect(),
    )
}

fn find<'a>(v: &'a [BasicNode<Task>], id: &str) -> Option<&'a BasicNode<Task>> {
    v.iter().find(|n| n.uuid() == id)
}

fn has(v: &[String], id: &str) -> bool {
    v.iter().any(|s| s == id)
}

#[test]
fn settle_example() {
    // a is complete with no prerequisites; b waits on a but is incomplete;
    // c waits on b and is incomplete
    let lat = BasicLattice::from_node_list(vec![
        node("a", true, &[], &["b"]),
        node("b", false, &["a"], &["c"]),
        node("c", false, &["b"], &[]),
    ]);
    assert!(find(lat.read_fulfilled(), "a").is_some());
    let b = find(lat.read_pending(), "b").expect("b stays pending");
    assert!(b.depends_on().is_empty());
    assert!(has(b.fulfilled_by(), "a"));
    let c = find(lat.read_pending(), "c").expect("c stays pending");
    assert_eq!(c.depends_on().len(), 1);

    // completing b fulfills it and satisfies c's edge; c itself remains
    // pending because its payload is still incomplete
    let mut lat = lat;
    assert_eq!(lat.update_value("b".to_string(), task("b", true)), Ok(()));
    assert!(find(lat.read_fulfilled(), "b").is_some());
    let c = find(lat.read_pending(), "c").expect("c still pending");
    assert!(c.depends_on().is_empty());
    assert!(has(c.fulfilled_by(), "b"));
    assert!(!lat.is_completed());

    assert_eq!(lat.update_value("c".to_string(), task("c", true)), Ok(()));
    assert!(find(lat.read_fulfilled(), "c").is_some());
    assert!(lat.is_completed());
}

#[test]
fn cascade_chain() {
    // b waits solely on a, c solely on b; both payloads are complete, so one
    // call to fulfill(a) carries the whole chain over
    let mut lat = BasicLattice::from_node_list(vec![
        node("a", false, &[], &["b"]),
        node("b", true, &["a"], &["c"]),
        node("c", true, &["b"], &[]),
    ]);
    assert!(find(lat.read_pending(), "a").is_some());
    assert_eq!(lat.fulfill("a".to_string()), Ok(()));
    assert!(find(lat.read_fulfilled(), "a").is_some());
    assert!(find(lat.read_fulfilled(), "b").is_some());
    assert!(find(lat.read_fulfilled(), "c").is_some());
    assert!(lat.read_pending().is_empty());
}

#[test]
fn idempotent_edge_insertion() {
    let mut lat = BasicLattice::from_node_list(vec![
        node("a", false, &[], &[]),
        node("b", false, &[], &[]),
    ]);
    assert_eq!(lat.update_depends_on("a".to_string(), "b".to_string()), Ok(()));
    assert_eq!(lat.update_depends_on("a".to_string(), "b".to_string()), Ok(()));
    assert_eq!(lat.update_required_by("b".to_string(), "a".to_string()), Ok(true));
    assert_eq!(lat.update_required_by("b".to_string(), "a".to_string()), Ok(true));
    let a = find(lat.read_pending(), "a").unwrap();
    assert_eq!(a.depends_on().len(), 1);
    let b = find(lat.read_pending(), "b").unwrap();
    assert_eq!(b.required_by().len(), 1);
}

#[test]
fn reopening() {
    // f is fulfilled with no dependents; a new unmet prerequisite g demotes
    // it back to pending, and fulfilling g brings it home again
    let mut lat = BasicLattice::from_node_list(vec![
        node("f", true, &[], &[]),
        node("g", false, &[], &[]),
    ]);
    assert!(find(lat.read_fulfilled(), "f").is_some());
    assert_eq!(lat.add_requirement("f".to_string(), "g".to_string()), Ok(()));
    let f = find(lat.read_pending(), "f").expect("f reopened");
    assert_eq!(f.depends_on().len(), 1);
    assert!(has(f.depends_on(), "g"));
    assert_eq!(lat.update_value("g".to_string(), task("g", true)), Ok(()));
    assert!(find(lat.read_fulfilled(), "g").is_some());
    assert!(find(lat.read_fulfilled(), "f").is_some());
}

#[test]
fn already_satisfied_edge() {
    let mut lat = BasicLattice::from_node_list(vec![
        node("r", true, &[], &[]),
        node("p", true, &[], &[]),
    ]);
    assert!(find(lat.read_fulfilled(), "r").is_some());
    assert!(find(lat.read_fulfilled(), "p").is_some());
    assert_eq!(lat.add_requirement("r".to_string(), "p".to_string()), Ok(()));
    let r = find(lat.read_fulfilled(), "r").expect("r stays fulfilled");
    assert!(r.depends_on().is_empty());
    assert!(has(r.fulfilled_by(), "p"));
    let p = find(lat.read_fulfilled(), "p").expect("p stays fulfilled");
    assert!(has(p.required_by(), "r"));
}

#[test]
fn update_depends_on_reopens_only_for_new_edges() {
    let mut lat = BasicLattice::from_node_list(vec![
        node("a", true, &[], &["b"]),
        node("b", true, &["a"], &[]),
    ]);
    // both settled after construction
    assert!(find(lat.read_fulfilled(), "a").is_some());
    assert!(find(lat.read_fulfilled(), "b").is_some());
    // re-registering the satisfied edge does not reopen b
    assert_eq!(lat.update_depends_on("b".to_string(), "a".to_string()), Ok(()));
    assert!(find(lat.read_fulfilled(), "b").is_some());
    // a genuinely new edge does
    assert_eq!(lat.update_depends_on("b".to_string(), "x".to_string()), Ok(()));
    let b = find(lat.read_pending(), "b").expect("b reopened");
    assert!(has(b.depends_on(), "x"));
}

#[test]
fn update_required_by_reports_blocking() {
    let mut lat = BasicLattice::from_node_list(vec![
        node("p", false, &[], &[]),
        node("q", true, &[], &[]),
    ]);
    assert_eq!(lat.update_required_by("p".to_string(), "x".to_string()), Ok(true));
    assert_eq!(lat.update_required_by("q".to_string(), "x".to_string()), Ok(false));
    assert_eq!(
        lat.update_required_by("missing".to_string(), "x".to_string()),
        Err(LatticeError::NotFound)
    );
}

#[test]
fn fulfill_errors() {
    let mut lat = BasicLattice::from_node_list(vec![
        node("a", false, &[], &[]),
        node("done", true, &[], &[]),
    ]);
    assert_eq!(
        lat.fulfill("missing".to_string()),
        Err(LatticeError::NotFound)
    );
    // fulfilling an already-fulfilled node is an error, not a no-op
    assert_eq!(lat.fulfill("done".to_string()), Err(LatticeError::NotFound));
}

#[test]
fn fulfill_unknown_dependency() {
    // x never listed a as a prerequisite, yet a claims x depends on it
    let mut lat = BasicLattice::from_node_list(vec![
        node("a", false, &[], &[]),
        node("x", false, &[], &[]),
    ]);
    assert_eq!(lat.update_required_by("a".to_string(), "x".to_string()), Ok(true));
    assert_eq!(
        lat.fulfill("a".to_string()),
        Err(LatticeError::UnknownDependency)
    );
    // the failing step left a pending
    assert!(find(lat.read_pending(), "a").is_some());
}

#[test]
fn fulfill_inconsistent_graph() {
    // a's dependent list names a node that is nowhere in the lattice
    let mut lat = BasicLattice::from_node_list(vec![node("a", false, &[], &[])]);
    assert_eq!(lat.update_required_by("a".to_string(), "ghost".to_string()), Ok(true));
    assert_eq!(
        lat.fulfill("a".to_string()),
        Err(LatticeError::InconsistentGraph)
    );
    assert!(find(lat.read_pending(), "a").is_some());
}

#[test]
fn update_value_errors() {
    let mut lat = BasicLattice::from_node_list(vec![
        node("a", false, &[], &[]),
        node("done", true, &[], &[]),
    ]);
    assert_eq!(
        lat.update_value("missing".to_string(), task("missing", true)),
        Err(LatticeError::NotFound)
    );
    // values are only updated while pending
    assert_eq!(
        lat.update_value("done".to_string(), task("done", false)),
        Err(LatticeError::NotFound)
    );
    // a replacement payload must keep the identifier
    assert_eq!(
        lat.update_value("a".to_string(), task("other", true)),
        Err(LatticeError::IdentityMismatch)
    );
    assert!(find(lat.read_pending(), "a").is_some());
}

#[test]
fn add_requirement_errors() {
    let mut lat = BasicLattice::from_node_list(vec![node("a", false, &[], &[])]);
    assert_eq!(
        lat.add_requirement("a".to_string(), "missing".to_string()),
        Err(LatticeError::NotFound)
    );
    assert_eq!(
        lat.add_requirement("missing".to_string(), "a".to_string()),
        Err(LatticeError::NotFound)
    );
    assert_eq!(
        lat.update_depends_on("missing".to_string(), "a".to_string()),
        Err(LatticeError::NotFound)
    );
}

#[test]
fn add_requirement_between_pending_nodes() {
    let mut lat = BasicLattice::from_node_list(vec![
        node("a", false, &[], &[]),
        node("b", false, &[], &[]),
    ]);
    assert_eq!(lat.add_requirement("a".to_string(), "b".to_string()), Ok(()));
    let a = find(lat.read_pending(), "a").unwrap();
    assert!(has(a.depends_on(), "b"));
    let b = find(lat.read_pending(), "b").unwrap();
    assert!(has(b.required_by(), "a"));
}

#[test]
fn add_requirement_on_fulfilled_prerequisite_is_born_resolved() {
    let mut lat = BasicLattice::from_node_list(vec![
        node("a", false, &[], &[]),
        node("p", true, &[], &[]),
    ]);
    assert_eq!(lat.add_requirement("a".to_string(), "p".to_string()), Ok(()));
    let a = find(lat.read_pending(), "a").unwrap();
    assert!(a.depends_on().is_empty());
    assert!(has(a.fulfilled_by(), "p"));
}

#[test]
fn add_requirement_satisfies_existing_one_sided_edge() {
    // r already lists p as unmet (one-sided, so p's fulfillment never
    // reached it); wiring the edge in full satisfies it in place, and r
    // stays pending until something fulfills it
    let mut lat = BasicLattice::from_node_list(vec![
        node("p", true, &[], &[]),
        node("r", true, &["p"], &[]),
    ]);
    assert!(find(lat.read_fulfilled(), "p").is_some());
    assert!(find(lat.read_pending(), "r").is_some());
    assert_eq!(lat.add_requirement("r".to_string(), "p".to_string()), Ok(()));
    let r = find(lat.read_pending(), "r").expect("r is not fulfilled by edge wiring");
    assert!(r.depends_on().is_empty());
    assert!(has(r.fulfilled_by(), "p"));
    // fulfilling r by hand settles it
    assert_eq!(lat.fulfill("r".to_string()), Ok(()));
    assert!(find(lat.read_fulfilled(), "r").is_some());
}

#[test]
fn lattice_append_and_completion() {
    let mut lat: BasicLattice<Task> = BasicLattice::new();
    assert!(lat.is_completed());
    lat.append(node("open", false, &[], &[]));
    assert!(!lat.is_completed());
    lat.append(node("shut", true, &[], &[]));
    assert!(find(lat.read_pending(), "open").is_some());
    assert!(find(lat.read_fulfilled(), "shut").is_some());
    lat.append_pending(node("held", true, &[], &[]));
    assert!(find(lat.read_pending(), "held").is_some());
    lat.append_fulfilled(node("filed", false, &[], &[]));
    assert!(find(lat.read_fulfilled(), "filed").is_some());
}

#[test]
fn duplicate_identifier_replaces_pending_entry() {
    let lat = BasicLattice::from_node_list(vec![
        node("a", false, &["x"], &[]),
        node("a", false, &["y"], &[]),
    ]);
    assert_eq!(lat.read_pending().len(), 1);
    let a = find(lat.read_pending(), "a").unwrap();
    assert!(has(a.depends_on(), "y"));
    assert!(!has(a.depends_on(), "x"));
}
