use lattice_machine::{BasicNode, LatticeError, NodeType};

struct Step {
    name: String,
    finished: bool,
}

impl NodeType for Step {
    fn uuid(&self) -> String {
        self.name.clone()
    }

    fn is_completed(&self) -> bool {
        self.finished
    }
}

fn step(name: &str, finished: bool) -> Step {
    Step { name: name.to_string(), finished }
}

fn strings(items: &[&str]) -> Vec<String> {
    items.iter().map(|s| s.to_string()).collect()
}

fn has(v: &[String], id: &str) -> bool {
    v.iter().any(|s| s == id)
}

#[test]
fn new_drops_duplicates() {
    let n = BasicNode::new(step("s", false), strings(&["a", "b", "a"]), strings(&["c", "c"]));
    assert_eq!(n.depends_on().len(), 2);
    assert_eq!(n.required_by().len(), 1);
    assert!(n.fulfilled_by().is_empty());
    assert_eq!(n.uuid(), "s");
    assert!(!n.is_completed());
}

#[test]
fn pending_and_active() {
    // blocked by an unmet prerequisite
    let blocked = BasicNode::new(step("s", true), strings(&["a"]), strings(&[]));
    assert!(blocked.is_pending());
    assert!(blocked.is_active());
    // incomplete but waiting on nothing
    let unfinished = BasicNode::new(step("s", false), strings(&[]), strings(&[]));
    assert!(unfinished.is_pending());
    assert!(!unfinished.is_active());
    // complete and waiting on nothing: ready to fulfill
    let ready = BasicNode::new(step("s", true), strings(&[]), strings(&[]));
    assert!(!ready.is_pending());
    assert!(ready.is_active());
}

#[test]
fn edge_insertion_is_idempotent() {
    let mut n = BasicNode::new(step("s", false), strings(&[]), strings(&[]));
    n.add_depends_on("a".to_string());
    n.add_depends_on("a".to_string());
    n.add_required_by("b".to_string());
    n.add_required_by("b".to_string());
    assert_eq!(n.depends_on().len(), 1);
    assert_eq!(n.required_by().len(), 1);
}

#[test]
fn satisfying_moves_the_edge_once() {
    let mut n = BasicNode::new(step("s", false), strings(&["a", "b"]), strings(&[]));
    assert_eq!(n.depend_fulfilled("a".to_string()), Ok(()));
    assert!(!has(n.depends_on(), "a"));
    assert!(has(n.depends_on(), "b"));
    assert!(has(n.fulfilled_by(), "a"));
    // a second satisfaction of the same edge is an error
    assert_eq!(
        n.depend_fulfilled("a".to_string()),
        Err(LatticeError::UnknownDependency)
    );
    // as is satisfying an edge that was never registered
    assert_eq!(
        n.depend_fulfilled("zzz".to_string()),
        Err(LatticeError::UnknownDependency)
    );
}

#[test]
fn satisfied_edge_is_not_re_added() {
    let mut n = BasicNode::new(step("s", false), strings(&["a"]), strings(&[]));
    assert_eq!(n.depend_fulfilled("a".to_string()), Ok(()));
    // the edge is already recorded as satisfied: registering it again is a no-op
    n.add_depends_on("a".to_string());
    assert!(n.depends_on().is_empty());
    assert!(has(n.fulfilled_by(), "a"));
}

#[test]
fn payload_replacement_checks_identity() {
    let mut n = BasicNode::new(step("s", false), strings(&[]), strings(&[]));
    assert_eq!(n.update(step("other", true)), Err(LatticeError::IdentityMismatch));
    assert!(!n.is_completed());
    assert_eq!(n.update(step("s", true)), Ok(()));
    assert!(n.is_completed());
    assert_eq!(n.uuid(), "s");
}
