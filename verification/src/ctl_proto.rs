//! The control socket protocol: what `flint-ctl` asks, what `flint-init` answers,
//! and the per-service status both sides share. Sockets, channels and JSON are
//! left to the caller.
use vstd::prelude::*;
use crate::executor::ServiceState;
use crate::text::str_eq;

verus! {

/// Per-service status as seen by the control socket.
#[derive(Debug, Clone)]
pub struct ServiceInfo {
    pub name: String,
    /// One of "pending", "running", "ready", "exited", "failed".
    pub state: String,
    pub pid: Option<u32>,
}

/// Commands sent from flint-ctl to flint-init.
#[derive(Debug)]
pub enum Request {
    Status,
    Stop { service: String },
    Start { service: String },
    Restart { service: String },
    Reload { service: String },
}

/// Responses sent from flint-init back to flint-ctl.
#[derive(Debug)]
pub enum Response {
    Status { services: Vec<ServiceInfo> },
    /// The request was carried out.
    Done { ok: bool },
    Error { error: String },
}

/// The status word of a service state.
pub open spec fn state_word(s: ServiceState) -> Seq<char> {
    match s {
        ServiceState::Pending => "pending"@,
        ServiceState::Running(_) => "running"@,
        ServiceState::Ready => "ready"@,
        ServiceState::Exited { .. } => "exited"@,
        ServiceState::Failed => "failed"@,
    }
}

/// The process id a status entry shows after a state change: a running service
/// shows its process, a ready one keeps what it showed, any other shows none.
pub open spec fn pid_after(previous: Option<u32>, s: ServiceState) -> Option<u32> {
    match s {
        ServiceState::Running(pid) => Some(pid as u32),
        ServiceState::Ready => previous,
        _ => None,
    }
}

impl ServiceInfo {
    /// The status entry for service `name` after its state became `state`;
    /// `existing` is its entry so far (a new entry starts pending, without process).
    pub fn synced(existing: Option<ServiceInfo>, name: &str, state: ServiceState) -> (r: ServiceInfo)
        ensures
            r.name@ == match existing {
                Some(e) => e.name@,
                None => name@,
            },
            r.state@ == state_word(state),
            r.pid == pid_after(
                match existing {
                    Some(e) => e.pid,
                    None => None,
                },
                state,
            ),
    {
        let (n, previous) = match existing {
            Some(e) => (e.name, e.pid),
            None => (name.to_string(), None),
        };
        match state {
            ServiceState::Pending => ServiceInfo { name: n, state: String::from_str("pending"), pid: None },
            ServiceState::Running(pid) => ServiceInfo { name: n, state: String::from_str("running"), pid: Some(pid as u32) },
            ServiceState::Ready => ServiceInfo { name: n, state: String::from_str("ready"), pid: previous },
            ServiceState::Exited { .. } => ServiceInfo { name: n, state: String::from_str("exited"), pid: None },
            ServiceState::Failed => ServiceInfo { name: n, state: String::from_str("failed"), pid: None },
        }
    }
}

/// The answer to a connection whose peer is not allowed: only root may use the
/// control socket when access is restricted, and a peer whose credentials cannot
/// be read is refused. `None` when the peer may go on.
pub open spec fn refusal(peer_uid: Option<u32>, require_root: bool) -> bool {
    require_root && peer_uid != Some(0u32)
}

/// Whether the peer is refused; see `refusal`.
pub fn refuses(peer_uid: Option<u32>, require_root: bool) -> (r: bool)
    ensures
        r == refusal(peer_uid, require_root),
{
    require_root && match peer_uid {
        Some(u) => u != 0,
        None => true,
    }
}

/// The error a refused peer gets.
pub fn permission_denied() -> (r: Response)
    ensures
        r matches Response::Error { error } && error@ == "permission denied: root access required"@,
{
    Response::Error { error: String::from_str("permission denied: root access required") }
}

/// The answer to a line that is not a valid request; `detail` is the parser's message.
pub fn invalid_request(detail: &str) -> (r: Response)
    ensures
        r matches Response::Error { error } && error@ == "invalid request: "@ + detail@,
{
    let mut m = String::from_str("invalid request: ");
    m.append(detail);
    Response::Error { error: m }
}

/// The answer to `stop`, given the process id the status table shows for the
/// service: with one, that process is sent SIGTERM and the answer is ok.
pub fn stop_response(service: &str, pid: Option<u32>) -> (r: Response)
    ensures
        pid is Some ==> (r matches Response::Done { ok } && ok),
        pid is None ==> (r matches Response::Error { error } && error@ == "service '"@ + service@
            + "' not found or not running"@),
{
    match pid {
        Some(_) => Response::Done { ok: true },
        None => {
            let mut m = String::from_str("service '");
            m.append(service);
            m.append("' not found or not running");
            Response::Error { error: m }
        },
    }
}

/// The answer to `start`, `restart` or `reload`, from the executor's reply:
/// `None` when the executor could not be reached or did not reply.
pub fn reply_response(reply: Option<Result<(), String>>) -> (r: Response)
    ensures
        match reply {
            Some(Ok(())) => r matches Response::Done { ok } && ok,
            Some(Err(e)) => r matches Response::Error { error } && error@ == e@,
            None => r matches Response::Error { error } && error@ == "executor disconnected"@,
        },
{
    match reply {
        Some(Ok(())) => Response::Done { ok: true },
        Some(Err(e)) => Response::Error { error: e },
        None => Response::Error { error: String::from_str("executor disconnected") },
    }
}

/// What `flint-ctl` was asked to do.
#[derive(Debug)]
pub enum CtlAction {
    /// List the catalog.
    GetList,
    /// Send this request to the control socket.
    Send(Request),
    /// Print the usage and fail.
    Usage,
}

/// The action `flint-ctl` takes for its arguments (without the program name):
/// `get --list`, `status`, or `stop <service>`; anything else is a usage error.
pub fn ctl_action(args: &Vec<String>) -> (r: CtlAction)
    ensures
        args@.len() == 2 && args@[0]@ == "get"@ && args@[1]@ == "--list"@ ==> r is GetList,
        args@.len() == 1 && args@[0]@ == "status"@ ==> r matches CtlAction::Send(Request::Status),
        args@.len() == 2 && args@[0]@ == "stop"@ ==> (r matches CtlAction::Send(Request::Stop { service })
            && service@ == args@[1]@),
        !(args@.len() == 2 && args@[0]@ == "get"@ && args@[1]@ == "--list"@) && !(args@.len() == 1 && args@[0]@
            == "status"@) && !(args@.len() == 2 && args@[0]@ == "stop"@) ==> r is Usage,
{
    proof {
        reveal_strlit("get");
        reveal_strlit("stop");
        reveal_strlit("status");
        assert("get"@.len() == 3);
        assert("stop"@.len() == 4);
        assert("get"@ != "stop"@);
    }
    if args.len() == 2 && str_eq(args[0].as_str(), "get") && str_eq(args[1].as_str(), "--list") {
        return CtlAction::GetList;
    }
    if args.len() == 1 && str_eq(args[0].as_str(), "status") {
        return CtlAction::Send(Request::Status);
    }
    if args.len() == 2 && str_eq(args[0].as_str(), "stop") {
        return CtlAction::Send(Request::Stop { service: args[1].clone() });
    }
    CtlAction::Usage
}

} // verus!
