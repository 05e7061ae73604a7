use flint_init::executor::{exec_argv, should_restart, ExitOutcome, Launch, ServiceState, Supervisor, MAX_RESTARTS};
use flint_init::graph::ServiceGraph;
use flint_init::service::{DepsSection, RestartPolicy, ServiceDef, ServiceSection};

fn service(name: &str, exec: &str, after: &[&str], needs: &[&str], restart: Option<RestartPolicy>) -> ServiceDef {
    ServiceDef {
        service: ServiceSection {
            name: name.to_string(),
            exec_line: exec.to_string(),
            restart,
            user: None,
            args: None,
        },
        deps: if after.is_empty() && needs.is_empty() {
            None
        } else {
            Some(DepsSection {
                after: after.iter().map(|s| s.to_string()).collect(),
                needs: needs.iter().map(|s| s.to_string()).collect(),
            })
        },
        ready: None,
        resources: None,
    }
}

fn supervisor(services: Vec<ServiceDef>) -> Supervisor {
    let graph = ServiceGraph::build(services.clone()).unwrap();
    Supervisor::new(graph, services)
}

fn expect_start(s: &mut Supervisor) -> (usize, Vec<String>) {
    match s.next_launch() {
        Launch::Start(i, argv) => (i, argv),
        other => panic!("expected a start, got {:?}", other),
    }
}

#[test]
fn should_restart_follows_the_policy_table() {
    assert!(should_restart(Some(&RestartPolicy::Always), 0, false));
    assert!(should_restart(Some(&RestartPolicy::OnFailure), 1, false));
    assert!(should_restart(Some(&RestartPolicy::OnFailure), 0, true));
    assert!(!should_restart(Some(&RestartPolicy::OnFailure), 0, false));
    assert!(!should_restart(Some(&RestartPolicy::Never), 1, true));
    assert!(!should_restart(None, 1, false));
}

#[test]
fn argv_is_the_whitespace_split_exec() {
    assert_eq!(exec_argv("/usr/bin/env  true\t-x"), vec!["/usr/bin/env", "true", "-x"]);
    assert!(exec_argv("   ").is_empty());
}

#[test]
fn failed_needs_dep_blocks_dependent_instead_of_hanging() {
    let mut s = supervisor(vec![
        service("fail", "/usr/bin/false", &[], &[], None),
        service("blocked", "/usr/bin/true", &[], &["fail"], None),
    ]);
    let (i, argv) = expect_start(&mut s);
    assert_eq!((s.name_of(i).as_str(), argv), ("fail", vec!["/usr/bin/false".to_string()]));
    assert!(s.on_started(i, 100));
    assert!(matches!(s.next_launch(), Launch::Idle));
    assert!(!s.is_finished());
    assert!(matches!(s.on_exit(100, 1, false, false), ExitOutcome::Finished(0)));
    assert_eq!(s.state_of(0), ServiceState::Exited { code: 1 });
    assert!(matches!(s.next_launch(), Launch::Blocked(1)));
    assert_eq!(s.state_of(1), ServiceState::Failed);
    assert!(matches!(s.next_launch(), Launch::Idle));
    assert!(s.is_finished());
}

#[test]
fn after_only_dependent_runs_despite_failure() {
    let mut s = supervisor(vec![
        service("fail", "/usr/bin/false", &[], &[], None),
        service("after_svc", "/usr/bin/true", &["fail"], &[], None),
    ]);
    let (i, _) = expect_start(&mut s);
    assert!(s.on_started(i, 7));
    assert!(matches!(s.on_exit(7, 1, false, false), ExitOutcome::Finished(0)));
    let (j, argv) = expect_start(&mut s);
    assert_eq!((j, argv), (1, vec!["/usr/bin/true".to_string()]));
}

#[test]
fn on_failure_restarts_until_the_limit_then_fails_and_blocks() {
    let mut s = supervisor(vec![
        service("base", "/bin/sh script.sh", &[], &[], Some(RestartPolicy::OnFailure)),
        service("dependent", "/usr/bin/true", &[], &["base"], None),
    ]);
    let (i, _) = expect_start(&mut s);
    let mut pid = 10;
    assert!(s.on_started(i, pid));
    let mut runs = 1;
    loop {
        match s.on_exit(pid, 1, false, false) {
            ExitOutcome::Restart(j, argv) => {
                assert_eq!(argv, vec!["/bin/sh", "script.sh"]);
                pid += 1;
                runs += 1;
                assert!(s.on_started(j, pid));
            }
            ExitOutcome::Finished(j) => {
                assert_eq!(j, 0);
                break;
            }
            ExitOutcome::Untracked => panic!("process lost track of"),
        }
    }
    assert_eq!(runs, MAX_RESTARTS + 1);
    assert_eq!(s.state_of(0), ServiceState::Failed);
    assert!(matches!(s.next_launch(), Launch::Blocked(1)));
}

#[test]
fn never_policy_runs_once() {
    let mut s = supervisor(vec![service("once", "/bin/false", &[], &[], Some(RestartPolicy::Never))]);
    let (i, _) = expect_start(&mut s);
    assert!(s.on_started(i, 5));
    assert!(matches!(s.on_exit(5, 1, false, false), ExitOutcome::Finished(0)));
    assert_eq!(s.state_of(0), ServiceState::Exited { code: 1 });
}

#[test]
fn always_policy_is_not_honoured_during_shutdown() {
    let mut s = supervisor(vec![service("loop", "/bin/true", &[], &[], Some(RestartPolicy::Always))]);
    let (i, _) = expect_start(&mut s);
    assert!(s.on_started(i, 5));
    assert!(matches!(s.on_exit(5, 0, false, true), ExitOutcome::Finished(0)));
    assert_eq!(s.state_of(0), ServiceState::Exited { code: 0 });
}

#[test]
fn killed_service_counts_as_failed_exit() {
    let mut s = supervisor(vec![
        service("victim", "/bin/sleep 100", &[], &[], None),
        service("needer", "/bin/true", &[], &["victim"], None),
    ]);
    let (i, _) = expect_start(&mut s);
    assert!(s.on_started(i, 9));
    assert!(matches!(s.on_exit(9, 0, true, false), ExitOutcome::Finished(0)));
    assert_eq!(s.state_of(0), ServiceState::Exited { code: -1 });
    assert!(matches!(s.next_launch(), Launch::Blocked(1)));
}

#[test]
fn empty_exec_is_reported() {
    let mut s = supervisor(vec![service("empty", "   ", &[], &[], None)]);
    match s.next_launch() {
        Launch::EmptyExec(name) => assert_eq!(name, "empty"),
        other => panic!("expected EmptyExec, got {:?}", other),
    }
}

#[test]
fn readiness_signal_releases_dependents_once() {
    let mut s = supervisor(vec![
        service("dbus", "/usr/bin/dbus-daemon", &[], &[], None),
        service("nm", "/usr/bin/NetworkManager", &[], &["dbus"], None),
        service("sshd", "/usr/sbin/sshd", &["dbus"], &[], None),
    ]);
    let (i, _) = expect_start(&mut s);
    assert!(s.on_started(i, 75));
    assert!(matches!(s.next_launch(), Launch::Idle));
    assert!(s.on_ready("dbus"));
    assert_eq!(s.state_of(0), ServiceState::Ready);
    assert!(!s.on_ready("dbus"));
    // released in name order, started last-queued first
    let (a, _) = expect_start(&mut s);
    let (b, _) = expect_start(&mut s);
    assert_eq!((s.name_of(a).as_str(), s.name_of(b).as_str()), ("sshd", "nm"));
    // a readiness signal for something that is not a service is only remembered
    assert!(s.on_ready("unknown"));
    assert!(!s.on_ready("unknown"));
    // a ready service that later fails does not block its dependents
    assert!(matches!(s.on_exit(75, 1, false, false), ExitOutcome::Finished(0)));
    assert!(matches!(s.next_launch(), Launch::Idle));
}

#[test]
fn starting_twice_or_with_a_tracked_pid_is_refused() {
    let mut s = supervisor(vec![
        service("a", "/bin/a", &[], &[], None),
        service("b", "/bin/b", &[], &[], None),
    ]);
    let (i, _) = expect_start(&mut s);
    assert!(s.on_started(i, 1));
    assert!(!s.on_started(i, 2));
    let (j, _) = expect_start(&mut s);
    assert!(!s.on_started(j, 1));
    assert!(s.on_started(j, 2));
    assert_eq!(s.running_pids(), vec![1, 2]);
    assert!(matches!(s.on_exit(99, 0, false, false), ExitOutcome::Untracked));
    s.on_lost(1);
    assert_eq!(s.running_pids(), vec![2]);
}

#[test]
fn shutdown_stops_dependents_before_their_dependencies() {
    let mut s = supervisor(vec![
        service("dbus", "/bin/dbus", &[], &[], None),
        service("nm", "/bin/nm", &["dbus"], &[], None),
        service("sshd", "/bin/sshd", &["nm"], &[], None),
    ]);
    let (d, _) = expect_start(&mut s);
    assert!(s.on_started(d, 11));
    assert!(s.on_ready("dbus"));
    let (n, _) = expect_start(&mut s);
    assert!(s.on_started(n, 22));
    assert!(s.on_ready("nm"));
    let (h, _) = expect_start(&mut s);
    assert!(s.on_started(h, 33));
    assert_eq!(s.shutdown_plan(), vec![(33, 2), (22, 1), (11, 0)]);
}
