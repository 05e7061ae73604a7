use flint_init::ctl_proto::{
    ctl_action, invalid_request, permission_denied, refuses, reply_response, stop_response, CtlAction, Request,
    Response, ServiceInfo,
};
use flint_init::executor::ServiceState;

fn error_text(r: Response) -> String {
    match r {
        Response::Error { error } => error,
        other => panic!("expected an error, got {:?}", other),
    }
}

#[test]
fn stop_without_a_process_names_the_service() {
    assert!(error_text(stop_response("ghost", None)).contains("ghost"));
    assert_eq!(error_text(stop_response("ghost", None)), "service 'ghost' not found or not running");
    assert!(matches!(stop_response("sshd", Some(42)), Response::Done { ok: true }));
}

#[test]
fn executor_replies_become_answers() {
    assert!(matches!(reply_response(Some(Ok(()))), Response::Done { ok: true }));
    assert_eq!(error_text(reply_response(Some(Err("already running".to_string())))), "already running");
    assert_eq!(error_text(reply_response(None)), "executor disconnected");
}

#[test]
fn refused_peers_get_permission_denied() {
    assert!(refuses(Some(1000), true));
    assert!(refuses(None, true));
    assert!(!refuses(Some(0), true));
    assert!(!refuses(Some(1000), false));
    assert_eq!(error_text(permission_denied()), "permission denied: root access required");
    assert!(error_text(invalid_request("expected value at line 1")).contains("invalid request"));
}

#[test]
fn status_entries_follow_state_changes() {
    let e = ServiceInfo::synced(None, "dbus", ServiceState::Pending);
    assert_eq!((e.name.as_str(), e.state.as_str(), e.pid), ("dbus", "pending", None));
    let e = ServiceInfo::synced(Some(e), "dbus", ServiceState::Running(75));
    assert_eq!((e.state.as_str(), e.pid), ("running", Some(75)));
    let e = ServiceInfo::synced(Some(e), "dbus", ServiceState::Ready);
    assert_eq!((e.state.as_str(), e.pid), ("ready", Some(75)));
    let e = ServiceInfo::synced(Some(e), "dbus", ServiceState::Exited { code: 0 });
    assert_eq!((e.state.as_str(), e.pid), ("exited", None));
    let e = ServiceInfo::synced(Some(e), "dbus", ServiceState::Failed);
    assert_eq!(e.state, "failed");
}

#[test]
fn ctl_arguments() {
    let args = |v: &[&str]| v.iter().map(|s| s.to_string()).collect::<Vec<String>>();
    assert!(matches!(ctl_action(&args(&["get", "--list"])), CtlAction::GetList));
    assert!(matches!(ctl_action(&args(&["status"])), CtlAction::Send(Request::Status)));
    match ctl_action(&args(&["stop", "nm"])) {
        CtlAction::Send(Request::Stop { service }) => assert_eq!(service, "nm"),
        other => panic!("unexpected {:?}", other),
    }
    assert!(matches!(ctl_action(&args(&[])), CtlAction::Usage));
    assert!(matches!(ctl_action(&args(&["stop"])), CtlAction::Usage));
    assert!(matches!(ctl_action(&args(&["get", "sshd"])), CtlAction::Usage));
}
