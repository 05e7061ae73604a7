use flint_init::graph::ServiceGraph;
use flint_init::service::{DepsSection, ServiceDef, ServiceSection};

fn make_service(name: &str, after: &[&str], needs: &[&str]) -> ServiceDef {
    ServiceDef {
        service: ServiceSection {
            name: name.to_string(),
            exec_line: format!("/bin/{}", name),
            restart: None,
            user: None,
            args: None,
        },
        deps: if after.is_empty() && needs.is_empty() {
            None
        } else {
            Some(DepsSection {
                after: after.iter().map(|s| s.to_string()).collect(),
                needs: needs.iter().map(|s| s.to_string()).collect(),
            })
        },
        ready: None,
        resources: None,
    }
}

#[test]
fn single_service_is_immediately_ready() {
    let services = vec![make_service("foo", &[], &[])];
    let graph = ServiceGraph::build(services).unwrap();
    assert_eq!(graph.initially_ready(), vec!["foo"]);
}

#[test]
fn service_with_dep_not_initially_ready() {
    let services = vec![make_service("a", &[], &[]), make_service("b", &["a"], &[])];
    let graph = ServiceGraph::build(services).unwrap();
    assert_eq!(graph.initially_ready(), vec!["a"]);
}

#[test]
fn marking_ready_unblocks_dependent() {
    let services = vec![make_service("a", &[], &[]), make_service("b", &["a"], &[])];
    let mut graph = ServiceGraph::build(services).unwrap();
    let unlocked = graph.mark_ready("a");
    assert_eq!(unlocked, vec!["b"]);
}

#[test]
fn diamond_dependency_waits_for_both_parents() {
    let services = vec![
        make_service("root", &[], &[]),
        make_service("left", &["root"], &[]),
        make_service("right", &["root"], &[]),
        make_service("leaf", &["left", "right"], &[]),
    ];
    let mut graph = ServiceGraph::build(services).unwrap();
    assert_eq!(graph.initially_ready(), vec!["root"]);
    let mut after_root = graph.mark_ready("root");
    after_root.sort();
    assert_eq!(after_root, vec!["left", "right"]);
    let after_left = graph.mark_ready("left");
    assert!(after_left.is_empty(), "leaf should still wait for right: {:?}", after_left);
    let after_right = graph.mark_ready("right");
    assert_eq!(after_right, vec!["leaf"]);
}

#[test]
fn cycle_is_detected() {
    let services = vec![make_service("a", &["b"], &[]), make_service("b", &["a"], &[])];
    let result = ServiceGraph::build(services);
    assert!(result.is_err());
    let err = result.unwrap_err().message();
    assert!(err.contains("cycle"), "expected cycle error, got: {}", err);
}

#[test]
fn self_loop_is_detected() {
    let services = vec![make_service("a", &["a"], &[])];
    let result = ServiceGraph::build(services);
    assert!(result.is_err());
}

#[test]
fn needs_dependents_populated_correctly() {
    // b has both after AND needs on a; c has after-only
    let services = vec![
        make_service("a", &[], &[]),
        make_service("b", &["a"], &["a"]),
        make_service("c", &["a"], &[]),
    ];
    let graph = ServiceGraph::build(services).unwrap();
    let mut deps = graph.needs_dependents("a").to_vec();
    deps.sort();
    assert_eq!(deps, vec!["b"]);
}

#[test]
fn needs_dependents_empty_for_after_only() {
    let services = vec![make_service("a", &[], &[]), make_service("b", &["a"], &[])];
    let graph = ServiceGraph::build(services).unwrap();
    assert_eq!(graph.needs_dependents("a"), &[] as &[String]);
}

#[test]
fn needs_dependents_empty_for_unknown_service() {
    let services = vec![make_service("a", &[], &[])];
    let graph = ServiceGraph::build(services).unwrap();
    assert_eq!(graph.needs_dependents("nonexistent"), &[] as &[String]);
}

// --- further cases ---

#[test]
fn unknown_dependency_is_reported_with_both_names() {
    let services = vec![make_service("a", &[], &[]), make_service("b", &["a"], &["ghost"])];
    let err = ServiceGraph::build(services).unwrap_err();
    assert_eq!(err.message(), "unknown dependency 'ghost' referenced by 'b'");
}

#[test]
fn cycle_message_lists_every_waiting_service_in_order() {
    let services = vec![
        make_service("a", &["b"], &[]),
        make_service("b", &["a"], &[]),
        make_service("c", &["a"], &[]),
        make_service("d", &[], &[]),
    ];
    let err = ServiceGraph::build(services).unwrap_err();
    assert_eq!(err.message(), "dependency cycle detected involving service(s): a, b, c");
}

#[test]
fn repeated_names_are_reported_as_a_cycle() {
    // Repeated names alone leave no name waiting on a cycle: the list is empty.
    let services = vec![make_service("a", &[], &[]), make_service("b", &[], &[]), make_service("a", &[], &[])];
    let err = ServiceGraph::build(services).unwrap_err();
    assert_eq!(err.message(), "dependency cycle detected involving service(s): ");
}

#[test]
fn repeated_names_pool_their_dependencies() {
    // The second "a" waits on "c", which waits on "a": both names are stuck, and
    // "d", which waits on "c", with them.
    let services = vec![
        make_service("a", &[], &[]),
        make_service("b", &[], &[]),
        make_service("c", &["a"], &[]),
        make_service("a", &["c"], &[]),
        make_service("d", &[], &["c"]),
    ];
    let err = ServiceGraph::build(services).unwrap_err();
    assert_eq!(err.message(), "dependency cycle detected involving service(s): a, c, d");
}

#[test]
fn mark_ready_of_unknown_name_changes_nothing() {
    let services = vec![make_service("a", &[], &[]), make_service("b", &["a"], &[])];
    let mut graph = ServiceGraph::build(services).unwrap();
    assert!(graph.mark_ready("zzz").is_empty());
    assert_eq!(graph.mark_ready("a"), vec!["b"]);
}

#[test]
fn released_services_come_back_sorted_by_name() {
    let services = vec![
        make_service("root", &[], &[]),
        make_service("zeta", &["root"], &[]),
        make_service("alpha", &["root"], &[]),
        make_service("mid", &["root"], &[]),
    ];
    let mut graph = ServiceGraph::build(services).unwrap();
    assert_eq!(graph.mark_ready("root"), vec!["alpha", "mid", "zeta"]);
}

#[test]
fn initially_ready_is_sorted_and_counts_services() {
    let services = vec![make_service("c", &[], &[]), make_service("a", &[], &[]), make_service("b", &["a"], &[])];
    let graph = ServiceGraph::build(services).unwrap();
    assert_eq!(graph.initially_ready(), vec!["a", "c"]);
    assert_eq!(graph.len(), 3);
}

#[test]
fn shutdown_order_stops_dependents_first() {
    let services = vec![
        make_service("dbus", &[], &[]),
        make_service("nm", &["dbus"], &[]),
        make_service("sshd", &["nm"], &[]),
    ];
    let graph = ServiceGraph::build(services).unwrap();
    let running = vec!["dbus".to_string(), "sshd".to_string(), "nm".to_string(), "ghost".to_string()];
    assert_eq!(graph.shutdown_order(&running), vec!["sshd", "nm", "dbus"]);
}

#[test]
fn marks_in_turn_release_services_whose_every_dependency_is_marked() {
    let services = vec![
        make_service("a", &[], &[]),
        make_service("b", &["a"], &[]),
        make_service("c", &["a"], &["b"]),
        make_service("d", &[], &[]),
    ];
    let mut graph = ServiceGraph::build(services).unwrap();
    assert_eq!(graph.initially_ready(), vec!["a", "d"]);
    assert_eq!(graph.mark_ready("a"), vec!["b"]);
    assert_eq!(graph.initially_ready(), vec!["a", "b", "d"]);
    assert_eq!(graph.mark_ready("d"), Vec::<String>::new());
    assert_eq!(graph.mark_ready("b"), vec!["c"]);
    assert_eq!(graph.initially_ready(), vec!["a", "b", "c", "d"]);
    assert_eq!(graph.len(), 4);
    assert_eq!(graph.needs_dependents("b"), &["c".to_string()][..]);
}

#[test]
fn shutdown_order_respects_dependencies_through_services_not_running() {
    // a needs b, b needs c; only a and c run: a must stop before c.
    let services = vec![
        make_service("c", &[], &[]),
        make_service("b", &[], &["c"]),
        make_service("a", &[], &["b"]),
    ];
    let graph = ServiceGraph::build(services).unwrap();
    let running = vec!["c".to_string(), "a".to_string()];
    assert_eq!(graph.shutdown_order(&running), vec!["a".to_string(), "c".to_string()]);
}
