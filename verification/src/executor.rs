//! The supervisor's decisions: which service to start next, what to do when a
//! child exits, what a readiness signal unblocks, and in which order to stop.
//! The process work itself (fork, exec, waitpid, kill) is done by the caller.
use vstd::prelude::*;
use crate::dag::{as_ints, indices_where};
use crate::graph::{
    after_mark, counts_unmarked, names_at, ready_set, released, service_deps, service_needs, GraphView,
    ServiceGraph,
};
use crate::service::{def_names, RestartPolicy, ServiceDef};
use crate::text::{sorted_seq, split_whitespace, views, words};

verus! {

/// After this many restarts a failing service is given up on.
pub const MAX_RESTARTS: u32 = 5;

/// Lifecycle state of one service.
#[derive(Debug, Clone, Copy, PartialEq, Eq, Structural)]
pub enum ServiceState {
    Pending,
    Running(i32),
    Ready,
    Exited { code: i32 },
    Failed,
}

/// Why the executor stopped.
#[derive(Debug, Clone)]
pub enum ExecutorError {
    /// A process-level call failed with this errno.
    Fork(i32),
    /// The service's exec string has no words.
    EmptyExec(String),
}

/// Whether the restart policy asks for a restart after an exit with `code`
/// (or a death by signal).
pub open spec fn restart_wanted(policy: Option<RestartPolicy>, code: i32, is_signal: bool) -> bool {
    match policy {
        Some(RestartPolicy::Always) => true,
        Some(RestartPolicy::OnFailure) => code != 0 || is_signal,
        _ => false,
    }
}

/// Decide whether to restart a service after it exits with the given code:
/// `always` restarts unconditionally, `on-failure` on a nonzero code or a
/// signal, `never` (or no policy) not at all.
pub fn should_restart(policy: Option<&RestartPolicy>, code: i32, is_signal: bool) -> (r: bool)
    ensures
        r == restart_wanted(
            match policy {
                Some(p) => Some(*p),
                None => None,
            },
            code,
            is_signal,
        ),
{
    match policy {
        Some(RestartPolicy::Always) => true,
        Some(RestartPolicy::OnFailure) => code != 0 || is_signal,
        _ => false,
    }
}

/// The argument vector a service is executed with: its exec string split at whitespace.
pub fn exec_argv(exec: &str) -> (r: Vec<String>)
    ensures
        views(r@) == words(exec@),
{
    split_whitespace(exec)
}

/// The restart policy of an optional definition.
pub open spec fn policy_of(d: Option<ServiceDef>) -> Option<RestartPolicy> {
    match d {
        Some(def) => def.service.restart,
        None => None,
    }
}

/// The last definition in `s` called `name` (later definitions replace earlier ones).
pub open spec fn last_named(s: Seq<ServiceDef>, name: Seq<char>) -> Option<ServiceDef>
    decreases s.len(),
{
    if s.len() == 0 {
        None
    } else if s.last().service.name@ == name {
        Some(s.last())
    } else {
        last_named(s.drop_last(), name)
    }
}

/// The names of a sequence of service indices.
pub open spec fn index_names(defs: Seq<ServiceDef>, s: Seq<int>) -> Seq<Seq<char>> {
    s.map_values(|i: int| def_names(defs)[i])
}

/// What the next step of the start queue is.
#[derive(Debug)]
pub enum Launch {
    /// Nothing is waiting to start.
    Idle,
    /// The service's hard dependency failed: it is marked failed instead of started.
    Blocked(usize),
    /// A queued service has no definition to start from; it was dropped from the queue.
    Skipped(usize),
    /// Start the service with this argument vector.
    Start(usize, Vec<String>),
    /// The service's exec string is empty; the executor stops with this error.
    EmptyExec(String),
}

/// What to do after a child process ended.
#[derive(Debug)]
pub enum ExitOutcome {
    /// The process is not one the supervisor started.
    Untracked,
    /// Start the service again with this argument vector.
    Restart(usize, Vec<String>),
    /// The service is done (exited, or failed for good).
    Finished(usize),
}

/// The supervisor's state, as contracts see it.
#[verifier::ext_equal]
pub struct SupervisorView {
    /// The dependency graph, with its current in-degrees.
    pub graph: GraphView,
    /// For each service, the definition it is started from, if one was supplied.
    pub defs: Seq<Option<ServiceDef>>,
    /// For each service, its current state.
    pub states: Seq<ServiceState>,
    /// For each service, whether it has been signalled ready (by a readiness
    /// file or by exiting).
    pub reported: Seq<bool>,
    /// Names signalled ready that are not services.
    pub extra_reported: Seq<Seq<char>>,
    /// For each service, whether a hard dependency of it failed.
    pub blocked: Seq<bool>,
    /// For each service, how often it has been restarted.
    pub restarts: Seq<int>,
    /// Services whose dependencies are satisfied, waiting to be started (last first).
    pub to_start: Seq<int>,
    /// Running children: process id and service.
    pub running: Seq<(i32, int)>,
    /// How many services have finished, failed or been blocked.
    pub completed: int,
    /// Services taken off the start queue so far.
    pub launched: Set<int>,
    /// Services marked ready in the graph so far.
    pub marked: Set<int>,
    /// Whether the in-degrees have ever stopped counting the unmarked dependencies
    /// (the graph was not fresh, or some service was marked twice).
    pub remarked: bool,
}

/// State of one run of the executor.
pub struct Supervisor {
    graph: ServiceGraph,
    /// The definitions the caller supplied.
    services: Vec<ServiceDef>,
    /// For each service, which supplied definition it is started from, if any.
    def_of: Vec<Option<usize>>,
    states: Vec<ServiceState>,
    /// Services already signalled ready (by readiness file or by exiting).
    reported: Vec<bool>,
    /// Names signalled ready that are not services.
    extra_reported: Vec<String>,
    /// Services whose hard dependency failed.
    blocked: Vec<bool>,
    restarts: Vec<u32>,
    /// Services whose dependencies are satisfied, waiting to be started (last first).
    to_start: Vec<usize>,
    /// Running children: process id and service.
    running: Vec<(i32, usize)>,
    /// Services that have finished, failed or been blocked.
    completed: usize,
    /// Services taken off the start queue so far.
    launched: Ghost<Set<int>>,
    /// Services marked ready in the graph so far.
    marked: Ghost<Set<int>>,
    /// Whether the in-degrees have ever stopped counting the unmarked dependencies.
    remarked: Ghost<bool>,
}

impl View for Supervisor {
    type V = SupervisorView;

    closed spec fn view(&self) -> SupervisorView {
        SupervisorView {
            graph: self.graph@,
            defs: self.def_of@.map_values(
                |o: Option<usize>|
                    match o {
                        Some(j) => Some(self.services@[j as int]),
                        None => None,
                    },
            ),
            states: self.states@,
            reported: self.reported@,
            extra_reported: views(self.extra_reported@),
            blocked: self.blocked@,
            restarts: self.restarts@.map_values(|x: u32| x as int),
            to_start: as_ints(self.to_start@),
            running: self.running@.map_values(|e: (i32, usize)| (e.0, e.1 as int)),
            completed: self.completed as int,
            launched: self.launched@,
            marked: self.marked@,
            remarked: self.remarked@,
        }
    }
}

/// The process ids of a running table are distinct.
pub open spec fn pids_distinct(r: Seq<(i32, int)>) -> bool {
    forall|a: int, b: int| 0 <= a < b < r.len() ==> #[trigger] r[a].0 != #[trigger] r[b].0
}

/// The invariant the supervisor keeps.
pub open spec fn supervisor_inv(v: SupervisorView) -> bool {
    let n = v.graph.defs.len();
    &&& v.defs.len() == n
    &&& v.states.len() == n
    &&& v.reported.len() == n
    &&& v.blocked.len() == n
    &&& v.restarts.len() == n
    &&& v.graph.in_degree.len() == n
    &&& forall|i: int| 0 <= i < n ==> 0 <= #[trigger] v.restarts[i] <= MAX_RESTARTS
    &&& v.to_start.no_duplicates()
    &&& forall|k: int| 0 <= k < v.to_start.len() ==> 0 <= #[trigger] v.to_start[k] < n
    &&& forall|k: int| 0 <= k < v.running.len() ==> 0 <= #[trigger] v.running[k].1 < n
    &&& pids_distinct(v.running)
    &&& forall|i: int| #[trigger] v.launched.contains(i) ==> 0 <= i < n
    &&& forall|i: int| 0 <= i < n ==> (v.graph.in_degree[i] == 0 <==> (v.to_start.contains(i) || #[trigger] v.launched.contains(i)))
    &&& forall|i: int| #[trigger] v.to_start.contains(i) ==> !v.launched.contains(i)
    &&& forall|i: int| #[trigger] v.marked.contains(i) ==> 0 <= i < n && (v.reported[i] || v.blocked[i])
    &&& !v.remarked ==> counts_unmarked(v.graph.defs, v.graph.in_degree, v.marked)
    &&& forall|k: int| 0 <= k < v.running.len() ==> startable(v.defs[#[trigger] v.running[k].1])
    &&& forall|a: int, b: int| 0 <= a < b < v.running.len() ==> #[trigger] v.running[a].1 != #[trigger] v.running[b].1
}

/// One more, unless the count is already at the largest `usize`.
pub open spec fn saturating_inc(c: int) -> int {
    if c < usize::MAX { c + 1 } else { c }
}

/// The blocked flags after every service that hard-depends on `a` is blocked.
pub open spec fn block_dependents(blocked: Seq<bool>, defs: Seq<ServiceDef>, a: int) -> Seq<bool> {
    Seq::new(blocked.len(), |j: int| blocked[j] || service_needs(defs)[j].contains(a))
}

/// The state after the last queued service is taken off the start queue.
pub open spec fn popped(v: SupervisorView) -> SupervisorView {
    SupervisorView { to_start: v.to_start.drop_last(), launched: v.launched.insert(v.to_start.last()), ..v }
}

/// `w`'s graph and queue are `v`'s after service `a` is marked ready: the in-degrees
/// of its dependents drop, and the services that released join the queue in name order.
pub open spec fn queue_after_release(v: SupervisorView, w: SupervisorView, a: int) -> bool {
    &&& w.marked == v.marked.insert(a)
    &&& w.remarked == (v.remarked || v.marked.contains(a))
    &&& w.graph.defs == v.graph.defs
    &&& w.graph.in_degree == after_mark(service_deps(v.graph.defs), v.graph.in_degree, a)
    &&& index_names(v.graph.defs, w.to_start) == index_names(v.graph.defs, v.to_start) + released_names(v.graph, a)
}

/// What taking the next service off a nonempty start queue does: `v` before, `w` after.
pub open spec fn launch_step(v: SupervisorView, w: SupervisorView, r: Launch) -> bool {
    let i = v.to_start.last();
    let p = popped(v);
    if v.blocked[i] {
        &&& r matches Launch::Blocked(j) && j == i
        &&& w.states == p.states.update(i, ServiceState::Failed)
        &&& w.blocked == block_dependents(p.blocked, p.graph.defs, i)
        &&& w.completed == saturating_inc(p.completed)
        &&& queue_after_release(p, w, i)
        &&& w.defs == p.defs
        &&& w.reported == p.reported
        &&& w.extra_reported == p.extra_reported
        &&& w.restarts == p.restarts
        &&& w.running == p.running
        &&& w.launched == p.launched
    } else {
        &&& w == p
        &&& match p.defs[i] {
            None => r matches Launch::Skipped(j) && j == i,
            Some(d) => if words(d.service.exec_line@).len() == 0 {
                r matches Launch::EmptyExec(name) && name@ == d.service.name@
            } else {
                r matches Launch::Start(j, argv) && j == i && views(argv@) == words(d.service.exec_line@)
            },
        }
    }
}

/// What a readiness signal for service `a` that was not yet reported does.
pub open spec fn ready_step(v: SupervisorView, w: SupervisorView, a: int) -> bool {
    &&& w.states == v.states.update(a, ServiceState::Ready)
    &&& w.reported == v.reported.update(a, true)
    &&& queue_after_release(v, w, a)
    &&& w.defs == v.defs
    &&& w.extra_reported == v.extra_reported
    &&& w.blocked == v.blocked
    &&& w.restarts == v.restarts
    &&& w.running == v.running
    &&& w.completed == v.completed
    &&& w.launched == v.launched
}

/// The exit code a process is judged by: a death by signal counts as code 1.
pub open spec fn judged_code(code: i32, signaled: bool) -> i32 {
    if signaled { 1 } else { code }
}

/// The state recorded for a service whose process ended and is not restarted.
pub open spec fn final_state(exhausted: bool, code: i32, signaled: bool) -> ServiceState {
    if exhausted {
        ServiceState::Failed
    } else if signaled {
        ServiceState::Exited { code: -1i32 }
    } else {
        ServiceState::Exited { code }
    }
}

/// What the end of process `pid` does: `v` before, `w` after.
pub open spec fn exit_step(
    v: SupervisorView,
    w: SupervisorView,
    r: ExitOutcome,
    pid: i32,
    code: i32,
    signaled: bool,
    shutting_down: bool,
) -> bool {
    match running_slot(v.running, pid) {
        None => r is Untracked && w == v,
        Some(k) => {
            let i = v.running[k].1;
            let gone = v.running.remove(k);
            let wanted = restart_wanted(policy_of(v.defs[i]), judged_code(code, signaled), signaled);
            if wanted && v.restarts[i] < MAX_RESTARTS && !shutting_down {
                &&& r matches ExitOutcome::Restart(j, argv) && j == i && views(argv@) == words(
                    v.defs[i]->Some_0.service.exec_line@,
                )
                &&& w == SupervisorView { restarts: v.restarts.update(i, v.restarts[i] + 1), running: gone, ..v }
            } else {
                let exhausted = wanted && v.restarts[i] >= MAX_RESTARTS;
                let failed = exhausted || signaled || code != 0;
                &&& r matches ExitOutcome::Finished(j) && j == i
                &&& w.states == v.states.update(i, final_state(exhausted, code, signaled))
                &&& w.completed == saturating_inc(v.completed)
                &&& w.blocked == if failed && !v.reported[i] {
                    block_dependents(v.blocked, v.graph.defs, i)
                } else {
                    v.blocked
                }
                &&& w.reported == v.reported.update(i, true)
                &&& if v.reported[i] {
                    w.graph == v.graph && w.to_start == v.to_start && w.marked == v.marked && w.remarked == v.remarked
                } else {
                    queue_after_release(v, w, i)
                }
                &&& w.running == gone
                &&& w.defs == v.defs
                &&& w.extra_reported == v.extra_reported
                &&& w.restarts == v.restarts
                &&& w.launched == v.launched
            }
        },
    }
}

/// The position in the running table of the process `pid`.
pub open spec fn running_slot(r: Seq<(i32, int)>, pid: i32) -> Option<int> {
    if exists|k: int| 0 <= k < r.len() && #[trigger] r[k].0 == pid {
        Some(choose|k: int| 0 <= k < r.len() && #[trigger] r[k].0 == pid)
    } else {
        None
    }
}

/// A definition to start a service from, whose exec string has at least one word.
pub open spec fn startable(o: Option<ServiceDef>) -> bool {
    o matches Some(d) && words(d.service.exec_line@).len() > 0
}

/// The names that marking service `a` ready releases, in name order.
pub open spec fn released_names(g: GraphView, a: int) -> Seq<Seq<char>> {
    sorted_seq(names_at(g.defs, released(service_deps(g.defs), g.in_degree, a)))
}

/// Two supervisor states that differ at most in the graph's in-degrees and the start queue.
pub open spec fn same_except_queue(a: SupervisorView, b: SupervisorView) -> bool {
    &&& a.graph.defs == b.graph.defs
    &&& a.defs == b.defs
    &&& a.states == b.states
    &&& a.reported == b.reported
    &&& a.extra_reported == b.extra_reported
    &&& a.blocked == b.blocked
    &&& a.restarts == b.restarts
    &&& a.running == b.running
    &&& a.completed == b.completed
    &&& a.launched == b.launched
}

/// Blocking more services keeps the invariant.
proof fn lemma_inv_blocked(v: SupervisorView, b: Seq<bool>)
    requires
        supervisor_inv(v),
        b.len() == v.blocked.len(),
        forall|i: int| 0 <= i < b.len() && #[trigger] v.blocked[i] ==> b[i],
    ensures
        supervisor_inv(SupervisorView { blocked: b, ..v }),
{
}

/// The invariant holds of a state that keeps the graph, queue, restart counts and
/// running table of one that satisfies it (and the lengths of its tables).
proof fn lemma_inv_core(v: SupervisorView, w: SupervisorView)
    requires
        supervisor_inv(v),
        w.graph == v.graph,
        w.defs == v.defs,
        w.to_start == v.to_start,
        w.running == v.running,
        w.launched == v.launched,
        w.restarts == v.restarts,
        w.marked == v.marked,
        w.remarked == v.remarked,
        w.states.len() == v.states.len(),
        w.reported.len() == v.reported.len(),
        w.blocked.len() == v.blocked.len(),
        forall|i: int| 0 <= i < w.reported.len() && #[trigger] v.reported[i] ==> w.reported[i],
        forall|i: int| 0 <= i < w.blocked.len() && #[trigger] v.blocked[i] ==> w.blocked[i],
    ensures
        supervisor_inv(w),
{
}

/// Taking the last service off the start queue keeps the invariant.
proof fn lemma_pop_inv(v: SupervisorView)
    requires
        supervisor_inv(v),
        v.to_start.len() > 0,
    ensures
        supervisor_inv(popped(v)),
{
    let w = popped(v);
    let i = v.to_start.last();
    assert forall|x: int| #[trigger] v.to_start.contains(x) <==> (w.to_start.contains(x) || x == i) by {
        if v.to_start.contains(x) {
            let q = choose|q: int| 0 <= q < v.to_start.len() && v.to_start[q] == x;
            if q < v.to_start.len() - 1 {
                assert(w.to_start[q] == x);
            }
        }
        if w.to_start.contains(x) {
            let q = choose|q: int| 0 <= q < w.to_start.len() && w.to_start[q] == x;
            assert(v.to_start[q] == x);
        }
    }
    assert forall|x: int| #[trigger] w.to_start.contains(x) implies !w.launched.contains(x) by {
        let q = choose|q: int| 0 <= q < w.to_start.len() && w.to_start[q] == x;
        assert(v.to_start[q] == x);
        assert(q != v.to_start.len() - 1);
        assert(v.to_start[v.to_start.len() - 1] == i);
        assert(x != i);
        assert(v.to_start.contains(x));
        assert(!v.launched.contains(x));
    }
    assert forall|x: int| 0 <= x < v.graph.defs.len() implies (w.graph.in_degree[x] == 0 <==> (w.to_start.contains(x)
        || #[trigger] w.launched.contains(x))) by {
        assert(v.to_start.contains(x) <==> (w.to_start.contains(x) || x == i));
    }
    assert forall|x: int| #[trigger] w.launched.contains(x) implies 0 <= x < v.graph.defs.len() by {
        if x == i {
            assert(v.to_start.contains(i));
        }
    }
    assert(w.to_start.no_duplicates()) by {
        assert forall|a: int, b: int| 0 <= a < b < w.to_start.len() implies w.to_start[a] != w.to_start[b] by {
            assert(v.to_start[a] == w.to_start[a]);
            assert(v.to_start[b] == w.to_start[b]);
        }
    }
    assert forall|k: int| 0 <= k < w.to_start.len() implies 0 <= #[trigger] w.to_start[k] < v.graph.defs.len() by {
        assert(v.to_start[k] == w.to_start[k]);
    }
}

/// Counting one more restart of a service below the limit keeps the invariant.
proof fn lemma_inv_restart(v: SupervisorView, i: int)
    requires
        supervisor_inv(v),
        0 <= i < v.graph.defs.len(),
        v.restarts[i] < MAX_RESTARTS,
    ensures
        supervisor_inv(SupervisorView { restarts: v.restarts.update(i, v.restarts[i] + 1), ..v }),
{
}

/// Dropping an entry of the running table keeps the invariant.
proof fn lemma_remove_running_inv(v: SupervisorView, k: int)
    requires
        supervisor_inv(v),
        0 <= k < v.running.len(),
    ensures
        supervisor_inv(SupervisorView { running: v.running.remove(k), ..v }),
{
    let r = v.running.remove(k);
    assert forall|q: int| 0 <= q < r.len() implies #[trigger] r[q] == v.running[if q < k { q } else { q + 1 }] by {}
    assert forall|a: int, b: int| 0 <= a < b < r.len() implies #[trigger] r[a].0 != #[trigger] r[b].0 by {
        assert(r[a] == v.running[if a < k { a } else { a + 1 }]);
        assert(r[b] == v.running[if b < k { b } else { b + 1 }]);
    }
    assert forall|a: int, b: int| 0 <= a < b < r.len() implies #[trigger] r[a].1 != #[trigger] r[b].1 by {
        assert(r[a] == v.running[if a < k { a } else { a + 1 }]);
        assert(r[b] == v.running[if b < k { b } else { b + 1 }]);
    }
    assert forall|q: int| 0 <= q < r.len() implies startable(v.defs[#[trigger] r[q].1]) by {
        assert(r[q] == v.running[if q < k { q } else { q + 1 }]);
    }
    assert forall|q: int| 0 <= q < r.len() implies 0 <= #[trigger] r[q].1 < v.graph.defs.len() by {
        assert(r[q] == v.running[if q < k { q } else { q + 1 }]);
    }
}

/// Marking service `a` ready and queueing the services it releases keeps the invariant.
proof fn lemma_release_inv(v: SupervisorView, w: SupervisorView, a: int)
    requires
        supervisor_inv(v),
        same_except_queue(v, w),
        0 <= a < v.graph.defs.len(),
        v.reported[a] || v.blocked[a],
        w.marked == v.marked.insert(a),
        w.remarked == (v.remarked || v.marked.contains(a)),
        def_names(v.graph.defs).no_duplicates(),
        w.graph.in_degree == after_mark(service_deps(v.graph.defs), v.graph.in_degree, a),
        w.to_start.len() >= v.to_start.len(),
        w.to_start.subrange(0, v.to_start.len() as int) == v.to_start,
        forall|k: int| 0 <= k < w.to_start.len() ==> 0 <= #[trigger] w.to_start[k] < v.graph.defs.len(),
        index_names(v.graph.defs, w.to_start) == index_names(v.graph.defs, v.to_start) + released_names(v.graph, a),
        crate::text::strictly_sorted(released_names(v.graph, a)),
        released_names(v.graph, a).to_set() == names_at(
            v.graph.defs,
            released(service_deps(v.graph.defs), v.graph.in_degree, a),
        ),
    ensures
        supervisor_inv(w),
{
    let defs = v.graph.defs;
    let n = defs.len();
    let d = service_deps(defs);
    let deg = v.graph.in_degree;
    let rel = released(d, deg, a);
    let rn = released_names(v.graph, a);
    let m = v.to_start.len();
    assert(index_names(defs, w.to_start).len() == w.to_start.len());
    assert(index_names(defs, v.to_start).len() == m);
    assert(rn.len() == w.to_start.len() - m);
    assert forall|q: int| m <= q < w.to_start.len() implies rel.contains(#[trigger] w.to_start[q]) by {
        assert(index_names(defs, w.to_start)[q] == rn[q - m]);
        assert(rn.to_set().contains(rn[q - m]));
        let x = rn[q - m];
        let i = choose|i: int| 0 <= i < defs.len() && rel.contains(i) && #[trigger] def_names(defs)[i] == x;
        assert(def_names(defs)[w.to_start[q]] == x);
    }
    assert forall|x: int| #[trigger] rel.contains(x) implies w.to_start.contains(x) by {
        assert(names_at(defs, rel).contains(def_names(defs)[x]));
        assert(rn.to_set().contains(def_names(defs)[x]));
        let p = choose|p: int| 0 <= p < rn.len() && rn[p] == def_names(defs)[x];
        assert(index_names(defs, w.to_start)[m + p] == rn[p]);
        assert(def_names(defs)[w.to_start[m + p]] == def_names(defs)[x]);
        assert(w.to_start[m + p] == x);
    }
    assert forall|q: int| 0 <= q < m implies #[trigger] w.to_start[q] == v.to_start[q] by {
        assert(w.to_start.subrange(0, m as int)[q] == w.to_start[q]);
    }
    assert forall|x: int| #[trigger] w.to_start.contains(x) <==> (v.to_start.contains(x) || rel.contains(x)) by {
        if w.to_start.contains(x) {
            let q = choose|q: int| 0 <= q < w.to_start.len() && w.to_start[q] == x;
            if q < m {
                assert(v.to_start[q] == x);
            }
        }
        if v.to_start.contains(x) {
            let q = choose|q: int| 0 <= q < v.to_start.len() && v.to_start[q] == x;
            assert(w.to_start[q] == x);
        }
    }
    assert(w.to_start.no_duplicates()) by {
        assert forall|p: int, q: int| 0 <= p < q < w.to_start.len() implies w.to_start[p] != w.to_start[q] by {
            if q < m {
                assert(v.to_start[p] == w.to_start[p]);
                assert(v.to_start[q] == w.to_start[q]);
            } else if p < m {
                assert(v.to_start.contains(w.to_start[p]));
                assert(rel.contains(w.to_start[q]));
                assert(deg[w.to_start[q]] == 1);
            } else {
                assert(index_names(defs, w.to_start)[p] == rn[p - m]);
                assert(index_names(defs, w.to_start)[q] == rn[q - m]);
                crate::text::lemma_lex_irreflexive(rn[p - m]);
                assert(rn[p - m] != rn[q - m]);
            }
        }
    }
    assert forall|i: int| 0 <= i < n implies (w.graph.in_degree[i] == 0 <==> (w.to_start.contains(i)
        || #[trigger] w.launched.contains(i))) by {
        if rel.contains(i) {
            assert(deg[i] == 1);
        }
    }
    assert forall|i: int| #[trigger] w.to_start.contains(i) implies !w.launched.contains(i) by {
        if rel.contains(i) {
            assert(deg[i] == 1);
            assert(!v.to_start.contains(i));
        }
    }
    if !w.remarked {
        crate::graph::law_mark_ready_releases_when_all_deps_ready(defs, deg, v.marked, a);
    }
}

impl Supervisor {
    /// The supervisor's internal tables agree with each other.
    pub closed spec fn wf(&self) -> bool {
        &&& self.graph.wf()
        &&& self.def_of@.len() == self.graph@.defs.len()
        &&& forall|i: int|
            0 <= i < self.def_of@.len() ==> (#[trigger] self.def_of@[i] matches Some(j) ==> j < self.services@.len())
        &&& supervisor_inv(self@)
        &&& self.completed <= usize::MAX
    }

    /// What a well-formed supervisor guarantees.
    pub proof fn lemma_wf(&self)
        requires
            self.wf(),
        ensures
            supervisor_inv(self@),
    {
    }

    /// Set up the run: every service pending, the services without dependencies
    /// queued (in name order, the last one to start first).
    pub fn new(graph: ServiceGraph, services: Vec<ServiceDef>) -> (r: Supervisor)
        requires
            graph.wf(),
        ensures
            r.wf(),
            r@.graph == graph@,
            r@.defs.len() == graph@.defs.len(),
            forall|i: int| 0 <= i < graph@.defs.len() ==> #[trigger] r@.defs[i] == last_named(services@, def_names(graph@.defs)[i]),
            forall|i: int| 0 <= i < graph@.defs.len() ==> #[trigger] r@.states[i] == ServiceState::Pending,
            forall|i: int| 0 <= i < graph@.defs.len() ==> !#[trigger] r@.reported[i],
            forall|i: int| 0 <= i < graph@.defs.len() ==> !#[trigger] r@.blocked[i],
            forall|i: int| 0 <= i < graph@.defs.len() ==> #[trigger] r@.restarts[i] == 0,
            r@.extra_reported.len() == 0,
            r@.running.len() == 0,
            r@.completed == 0,
            r@.launched == Set::<int>::empty(),
            r@.marked == Set::<int>::empty(),
            r@.remarked == !counts_unmarked(graph@.defs, graph@.in_degree, Set::empty()),
            index_names(graph@.defs, r@.to_start) == sorted_seq(names_at(graph@.defs, ready_set(graph@.in_degree))),
    {
        let n = graph.len();
        let ghost g = graph@;
        proof {
            graph.lemma_wf();
        }
        let mut def_of: Vec<Option<usize>> = Vec::new();
        let mut states: Vec<ServiceState> = Vec::new();
        let mut reported: Vec<bool> = Vec::new();
        let mut blocked: Vec<bool> = Vec::new();
        let mut restarts: Vec<u32> = Vec::new();
        let mut i: usize = 0;
        while i < n
            invariant
                graph.wf(),
                graph@ == g,
                n == g.defs.len(),
                i <= n,
                def_of@.len() == i,
                states@.len() == i,
                reported@.len() == i,
                blocked@.len() == i,
                restarts@.len() == i,
                forall|q: int|
                    0 <= q < i ==> match #[trigger] def_of@[q] {
                        Some(j) => j < services@.len() && last_named(services@, def_names(g.defs)[q]) == Some(services@[j as int]),
                        None => last_named(services@, def_names(g.defs)[q]) is None,
                    },
                forall|q: int| 0 <= q < i ==> #[trigger] states@[q] == ServiceState::Pending,
                forall|q: int| 0 <= q < i ==> !#[trigger] reported@[q],
                forall|q: int| 0 <= q < i ==> !#[trigger] blocked@[q],
                forall|q: int| 0 <= q < i ==> #[trigger] restarts@[q] == 0,
            decreases n - i,
        {
            let d = find_last_named(&services, graph.name_at(i));
            def_of.push(d);
            states.push(ServiceState::Pending);
            reported.push(false);
            blocked.push(false);
            restarts.push(0);
            i = i + 1;
        }
        let ready = graph.initially_ready();
        let mut to_start: Vec<usize> = Vec::new();
        let mut k: usize = 0;
        while k < ready.len()
            invariant
                graph.wf(),
                graph@ == g,
                n == g.defs.len(),
                k <= ready@.len(),
                views(ready@) == sorted_seq(names_at(g.defs, ready_set(g.in_degree))),
                views(ready@).to_set() == names_at(g.defs, ready_set(g.in_degree)),
                crate::text::strictly_sorted(views(ready@)),
                index_names(g.defs, as_ints(to_start@)) == views(ready@).take(k as int),
                forall|q: int| 0 <= q < to_start@.len() ==> #[trigger] to_start@[q] < n,
                forall|q: int| 0 <= q < to_start@.len() ==> g.in_degree[#[trigger] to_start@[q] as int] == 0,
            decreases ready@.len() - k,
        {
            let ghost before = to_start@;
            proof {
                graph.lemma_wf();
            }
            match graph.index_of(ready[k].as_str()) {
                Some(a) => {
                    to_start.push(a);
                    proof {
                        assert(index_names(g.defs, as_ints(to_start@)) =~= index_names(g.defs, as_ints(before)).push(def_names(g.defs)[a as int]));
                        assert(views(ready@).take(k as int + 1) =~= views(ready@).take(k as int).push(ready@[k as int]@));
                        assert(views(ready@).to_set().contains(views(ready@)[k as int]));
                        let x = views(ready@)[k as int];
                        let j = choose|j: int| 0 <= j < g.defs.len() && ready_set(g.in_degree).contains(j) && #[trigger] def_names(g.defs)[j] == x;
                        assert(j == a as int);
                    }
                },
                None => {
                    proof {
                        assert(views(ready@).to_set().contains(views(ready@)[k as int]));
                        let x = views(ready@)[k as int];
                        let j = choose|j: int| 0 <= j < g.defs.len() && ready_set(g.in_degree).contains(j) && #[trigger] def_names(g.defs)[j] == x;
                        assert(def_names(g.defs).contains(x));
                    }
                },
            }
            k = k + 1;
        }
        proof {
            assert(views(ready@).take(ready@.len() as int) =~= views(ready@));
            let ts = as_ints(to_start@);
            // distinct names give distinct indices
            assert(ts.no_duplicates()) by {
                assert forall|a: int, b: int| 0 <= a < b < ts.len() implies ts[a] != ts[b] by {
                    assert(index_names(g.defs, ts)[a] == views(ready@)[a]);
                    assert(index_names(g.defs, ts)[b] == views(ready@)[b]);
                    crate::text::lemma_lex_irreflexive(views(ready@)[a]);
                }
            }
            assert forall|x: int| 0 <= x < n implies (g.in_degree[x] == 0 <==> (ts.contains(x) || Set::<int>::empty().contains(x))) by {
                if g.in_degree[x] == 0 {
                    assert(ready_set(g.in_degree).contains(x));
                    assert(names_at(g.defs, ready_set(g.in_degree)).contains(def_names(g.defs)[x]));
                    let p = choose|p: int| 0 <= p < views(ready@).len() && views(ready@)[p] == def_names(g.defs)[x];
                    assert(index_names(g.defs, ts)[p] == def_names(g.defs)[x]);
                    assert(def_names(g.defs)[ts[p]] == def_names(g.defs)[x]);
                    assert(ts[p] == x);
                }
                if ts.contains(x) {
                    let p = choose|p: int| 0 <= p < ts.len() && ts[p] == x;
                    assert(to_start@[p] as int == x);
                }
            }
        }
        let r = Supervisor {
            graph,
            services,
            def_of,
            states,
            reported,
            extra_reported: Vec::new(),
            blocked,
            restarts,
            to_start,
            running: Vec::new(),
            completed: 0,
            launched: Ghost(Set::empty()),
            marked: Ghost(Set::empty()),
            remarked: Ghost(!counts_unmarked(g.defs, g.in_degree, Set::empty())),
        };
        proof {
            assert(r@.restarts =~= restarts@.map_values(|x: u32| x as int));
            assert forall|i: int| 0 <= i < n implies #[trigger] r@.defs[i] == last_named(r.services@, def_names(g.defs)[i]) by {
                assert(r@.defs[i] == match r.def_of@[i] {
                    Some(j) => Some(r.services@[j as int]),
                    None => None,
                });
            }
            assert(views(r.extra_reported@) =~= Seq::<Seq<char>>::empty());
        }
        r
    }
}

/// Append the services called `names` to the start queue, in that order.
fn enqueue(graph: &ServiceGraph, to_start: &mut Vec<usize>, names: &Vec<String>)
    requires
        graph.wf(),
        forall|q: int| 0 <= q < names@.len() ==> def_names(graph@.defs).contains(#[trigger] names@[q]@),
        forall|k: int| 0 <= k < old(to_start)@.len() ==> #[trigger] old(to_start)@[k] < graph@.defs.len(),
    ensures
        final(to_start)@.len() == old(to_start)@.len() + names@.len(),
        final(to_start)@.subrange(0, old(to_start)@.len() as int) == old(to_start)@,
        forall|k: int| 0 <= k < final(to_start)@.len() ==> #[trigger] final(to_start)@[k] < graph@.defs.len(),
        index_names(graph@.defs, as_ints(final(to_start)@)) == index_names(graph@.defs, as_ints(old(to_start)@))
            + views(names@),
{
    let ghost defs = graph@.defs;
    let ghost start = to_start@;
    let mut k: usize = 0;
    while k < names.len()
        invariant
            graph.wf(),
            defs == graph@.defs,
            k <= names@.len(),
            forall|q: int| 0 <= q < names@.len() ==> def_names(defs).contains(#[trigger] names@[q]@),
            to_start@.len() == start.len() + k,
            to_start@.subrange(0, start.len() as int) == start,
            forall|j: int| 0 <= j < to_start@.len() ==> #[trigger] to_start@[j] < defs.len(),
            index_names(defs, as_ints(to_start@)) == index_names(defs, as_ints(start)) + views(names@).take(k as int),
        decreases names@.len() - k,
    {
        let ghost before = to_start@;
        proof {
            graph.lemma_wf();
            assert(def_names(defs).contains(names@[k as int]@));
        }
        match graph.index_of(names[k].as_str()) {
            Some(a) => {
                to_start.push(a);
                proof {
                    assert(to_start@.subrange(0, start.len() as int) =~= before.subrange(0, start.len() as int));
                    assert(index_names(defs, as_ints(to_start@)) =~= index_names(defs, as_ints(before)).push(names@[k as int]@));
                    assert(views(names@).take(k as int + 1) =~= views(names@).take(k as int).push(names@[k as int]@));
                }
            },
            None => {
                proof {
                    assert(false);
                }
            },
        }
        k = k + 1;
    }
    assert(views(names@).take(names@.len() as int) =~= views(names@));
}

impl Supervisor {
    /// Mark service `a` ready in the graph and queue the services that releases,
    /// in name order.
    fn release(&mut self, a: usize)
        requires
            old(self).wf(),
            a < old(self)@.graph.defs.len(),
            old(self)@.reported[a as int] || old(self)@.blocked[a as int],
        ensures
            final(self).wf(),
            same_except_queue(old(self)@, final(self)@),
            queue_after_release(old(self)@, final(self)@, a as int),
    {
        let ghost v = self@;
        proof {
            self.graph.lemma_wf();
        }
        let name = self.graph.name_at(a).clone();
        let newly = self.graph.mark_ready(name.as_str());
        proof {
            assert(def_names(v.graph.defs)[a as int] == name@);
            assert forall|q: int| 0 <= q < newly@.len() implies def_names(self@.graph.defs).contains(#[trigger] newly@[q]@) by {
                assert(views(newly@)[q] == newly@[q]@);
                assert(views(newly@).to_set().contains(newly@[q]@));
            }
            assert forall|k: int| 0 <= k < self.to_start@.len() implies #[trigger] self.to_start@[k] < self@.graph.defs.len() by {
                assert(v.to_start[k] == self.to_start@[k] as int);
            }
        }
        enqueue(&self.graph, &mut self.to_start, &newly);
        proof {
            self.remarked = Ghost(self.remarked@ || self.marked@.contains(a as int));
            self.marked = Ghost(self.marked@.insert(a as int));
            let w = self@;
            assert(w.to_start.subrange(0, v.to_start.len() as int) =~= v.to_start);
            assert(w.restarts =~= v.restarts);
            assert(w.defs =~= v.defs);
            assert(w.running =~= v.running);
            lemma_release_inv(v, w, a as int);
        }
    }
}

impl Supervisor {
    /// Block every service that hard-depends on `a`.
    fn block_needs_dependents(&mut self, a: usize)
        requires
            old(self).wf(),
            a < old(self)@.graph.defs.len(),
        ensures
            final(self).wf(),
            final(self)@ =~= (SupervisorView {
                blocked: block_dependents(old(self)@.blocked, old(self)@.graph.defs, a as int),
                ..old(self)@
            }),
    {
        let ghost v = self@;
        let ghost defs = v.graph.defs;
        let ghost n = defs.len() as int;
        let ghost nd = service_needs(defs);
        proof {
            self.graph.lemma_wf();
            crate::dag::lemma_indices_where(nd, a as int, n);
        }
        let deps = self.graph.needs_dependents_at(a);
        proof {
            assert forall|p: int| 0 <= p < deps@.len() implies 0 <= #[trigger] deps@[p] < n by {
                assert(as_ints(deps@)[p] == deps@[p] as int);
            }
        }
        let mut k: usize = 0;
        while k < deps.len()
            invariant
                self.wf(),
                self@ =~= (SupervisorView { blocked: self@.blocked, ..v }),
                k <= deps@.len(),
                n == defs.len(),
                as_ints(deps@) == crate::dag::indices_where(nd, a as int, n),
                forall|p: int| 0 <= p < deps@.len() ==> 0 <= #[trigger] deps@[p] < n,
                self@.blocked.len() == n,
                forall|j: int| 0 <= j < n ==> #[trigger] self@.blocked[j] == (v.blocked[j] || as_ints(deps@).take(k as int).contains(j)),
            decreases deps@.len() - k,
        {
            let j = deps[k];
            proof {
                assert(as_ints(deps@)[k as int] == j as int);
            }
            let ghost b0 = self@.blocked;
            let ghost v0 = self@;
            self.blocked.set(j, true);
            proof {
                lemma_inv_blocked(v0, self@.blocked);
                assert(self@ =~= (SupervisorView { blocked: self@.blocked, ..v0 }));
            }
            proof {
                let t0 = as_ints(deps@).take(k as int);
                let t1 = as_ints(deps@).take(k as int + 1);
                assert(t1 =~= t0.push(j as int));
                assert(self@.blocked =~= b0.update(j as int, true));
                assert forall|x: int| 0 <= x < n implies #[trigger] self@.blocked[x] == (v.blocked[x] || t1.contains(x)) by {
                    if x == j as int {
                        assert(t1[k as int] == x);
                    } else {
                        if t1.contains(x) {
                            let q = choose|q: int| 0 <= q < t1.len() && t1[q] == x;
                            assert(t0[q] == x);
                        }
                        if t0.contains(x) {
                            let q = choose|q: int| 0 <= q < t0.len() && t0[q] == x;
                            assert(t1[q] == x);
                        }
                    }
                }
                assert(self@ =~= (SupervisorView { blocked: self@.blocked, ..v }));
            }
            k = k + 1;
        }
        proof {
            assert(as_ints(deps@).take(deps@.len() as int) =~= as_ints(deps@));
            assert(self@.blocked =~= block_dependents(v.blocked, defs, a as int));
        }
    }
}

impl Supervisor {
    /// Take the next service off the start queue (the one queued last) and say what
    /// to do with it. A blocked service is marked failed instead, blocks the services
    /// that need it, counts as done and releases its dependents.
    pub fn next_launch(&mut self) -> (r: Launch)
        requires
            old(self).wf(),
        ensures
            final(self).wf(),
            (old(self)@.to_start.len() == 0) == (r is Idle),
            r is Idle ==> final(self)@ == old(self)@,
            old(self)@.to_start.len() > 0 ==> launch_step(old(self)@, final(self)@, r),
    {
        let ghost v = self@;
        if self.to_start.len() == 0 {
            return Launch::Idle;
        }
        let ghost tq = self.to_start@;
        let i = self.to_start.pop().unwrap();
        proof {
            assert(self.to_start@ =~= tq.drop_last());
            assert(v.to_start.last() == i as int);
            self.launched = Ghost(self.launched@.insert(i as int));
            assert(as_ints(self.to_start@) =~= v.to_start.drop_last());
            assert(self@ =~= popped(v));
            lemma_pop_inv(v);
        }
        let ghost p = self@;
        if self.blocked[i] {
            let ghost s0 = self@;
            self.states.set(i, ServiceState::Failed);
            proof {
                lemma_inv_core(s0, self@);
            }
            self.block_needs_dependents(i);
            let ghost s1 = self@;
            self.release(i);
            let ghost s2 = self@;
            if self.completed < usize::MAX {
                self.completed = self.completed + 1;
            }
            proof {
                lemma_inv_core(s2, self@);
            }
            return Launch::Blocked(i);
        }
        match self.def_of[i] {
            None => Launch::Skipped(i),
            Some(j) => {
                let argv = exec_argv(self.services[j].service.exec_line.as_str());
                if argv.len() == 0 {
                    Launch::EmptyExec(self.services[j].service.name.clone())
                } else {
                    Launch::Start(i, argv)
                }
            },
        }
    }
}

/// The position in the running table of the process `pid`, if it is there.
fn find_slot(running: &Vec<(i32, usize)>, pid: i32, Ghost(r): Ghost<Seq<(i32, int)>>) -> (k: Option<usize>)
    requires
        r == running@.map_values(|e: (i32, usize)| (e.0, e.1 as int)),
        pids_distinct(r),
    ensures
        match k {
            Some(k) => running_slot(r, pid) == Some(k as int),
            None => running_slot(r, pid) is None,
        },
{
    let mut k: usize = 0;
    while k < running.len()
        invariant
            k <= running@.len(),
            r == running@.map_values(|e: (i32, usize)| (e.0, e.1 as int)),
            pids_distinct(r),
            forall|q: int| 0 <= q < k ==> #[trigger] r[q].0 != pid,
        decreases running@.len() - k,
    {
        if running[k].0 == pid {
            proof {
                assert(r[k as int].0 == pid);
                let c = choose|c: int| 0 <= c < r.len() && #[trigger] r[c].0 == pid;
                if c != k as int {
                    if c < k {
                        assert(r[c].0 != pid);
                    } else {
                        assert(r[k as int].0 != r[c].0);
                    }
                }
            }
            return Some(k);
        }
        k = k + 1;
    }
    None
}

impl Supervisor {
    /// Record that service `name` signalled readiness. Returns whether this is the
    /// first such signal for the name; only then is a service marked ready and its
    /// dependents released. Names that are not services are only remembered.
    pub fn on_ready(&mut self, name: &str) -> (r: bool)
        requires
            old(self).wf(),
        ensures
            final(self).wf(),
            forall|a: int|
                0 <= a < old(self)@.graph.defs.len() && def_names(old(self)@.graph.defs)[a] == name@ ==> if old(self)@.reported[a] {
                    !r && final(self)@ == old(self)@
                } else {
                    r && ready_step(old(self)@, final(self)@, a)
                },
            !def_names(old(self)@.graph.defs).contains(name@) ==> {
                &&& r == !old(self)@.extra_reported.contains(name@)
                &&& final(self)@ == (SupervisorView {
                    extra_reported: if r { old(self)@.extra_reported.push(name@) } else { old(self)@.extra_reported },
                    ..old(self)@
                })
            },
    {
        let ghost v = self@;
        proof {
            self.graph.lemma_wf();
        }
        match self.graph.index_of(name) {
            Some(a) => {
                proof {
                    assert forall|b: int| 0 <= b < v.graph.defs.len() && def_names(v.graph.defs)[b] == name@ implies b == a by {
                        assert(def_names(v.graph.defs)[a as int] == name@);
                    }
                }
                if self.reported[a] {
                    return false;
                }
                let ghost s0 = self@;
                self.reported.set(a, true);
                self.states.set(a, ServiceState::Ready);
                proof {
                    lemma_inv_core(s0, self@);
                }
                self.release(a);
                true
            },
            None => {
                if crate::text::vec_contains_str(&self.extra_reported, name) {
                    return false;
                }
                let ghost before = self.extra_reported@;
                self.extra_reported.push(name.to_string());
                proof {
                    assert(views(self.extra_reported@) =~= views(before).push(name@));
                    lemma_inv_core(v, self@);
                }
                true
            },
        }
    }

    /// Whether `on_started(i, pid)` would record the start: `i` is a service with a
    /// definition whose exec string has a word, that is not running, and `pid` is not
    /// a process already being tracked.
    pub fn can_record_start(&self, i: usize, pid: i32) -> (r: bool)
        requires
            self.wf(),
        ensures
            r == (i < self@.graph.defs.len() && startable(self@.defs[i as int]) && running_slot(self@.running, pid) is None
                && forall|k: int| 0 <= k < self@.running.len() ==> #[trigger] self@.running[k].1 != i),
    {
        if i >= self.def_of.len() {
            return false;
        }
        let ok_def = match self.def_of[i] {
            None => false,
            Some(j) => exec_argv(self.services[j].service.exec_line.as_str()).len() > 0,
        };
        if !ok_def {
            return false;
        }
        if find_slot(&self.running, pid, Ghost(self@.running)).is_some() {
            return false;
        }
        let mut k: usize = 0;
        while k < self.running.len()
            invariant
                self.wf(),
                k <= self.running@.len(),
                forall|q: int| 0 <= q < k ==> #[trigger] self@.running[q].1 != i,
            decreases self.running@.len() - k,
        {
            if self.running[k].1 == i {
                assert(self@.running[k as int].1 == i);
                return false;
            }
            k = k + 1;
        }
        true
    }

    /// Record that service `i` was started as process `pid`. Returns false, changing
    /// nothing, when `can_record_start(i, pid)` does not hold.
    pub fn on_started(&mut self, i: usize, pid: i32) -> (r: bool)
        requires
            old(self).wf(),
        ensures
            final(self).wf(),
            r == (i < old(self)@.graph.defs.len() && startable(old(self)@.defs[i as int]) && running_slot(
                old(self)@.running,
                pid,
            ) is None && forall|k: int| 0 <= k < old(self)@.running.len() ==> #[trigger] old(self)@.running[k].1 != i),
            r ==> final(self)@ == (SupervisorView {
                states: old(self)@.states.update(i as int, ServiceState::Running(pid)),
                running: old(self)@.running.push((pid, i as int)),
                ..old(self)@
            }),
            !r ==> final(self)@ == old(self)@,
    {
        if !self.can_record_start(i, pid) {
            return false;
        }
        let ghost v = self@;
        self.states.set(i, ServiceState::Running(pid));
        self.running.push((pid, i));
        proof {
            let w = self@;
            assert(w.running =~= v.running.push((pid, i as int)));
            assert(w.states =~= v.states.update(i as int, ServiceState::Running(pid)));
            assert forall|a: int, b: int| 0 <= a < b < w.running.len() implies #[trigger] w.running[a].0 != #[trigger] w.running[b].0 by {
                if b == v.running.len() {
                    assert(w.running[a] == v.running[a]);
                    if v.running[a].0 == pid {
                        assert(running_slot(v.running, pid) is Some);
                    }
                }
            }
            assert forall|a: int, b: int| 0 <= a < b < w.running.len() implies #[trigger] w.running[a].1 != #[trigger] w.running[b].1 by {
                if b == v.running.len() {
                    assert(w.running[a] == v.running[a]);
                }
            }
            assert forall|k: int| 0 <= k < w.running.len() implies startable(w.defs[#[trigger] w.running[k].1]) by {
                if k < v.running.len() {
                    assert(w.running[k] == v.running[k]);
                }
            }
            assert forall|k: int| 0 <= k < w.running.len() implies 0 <= #[trigger] w.running[k].1 < v.graph.defs.len() by {
                if k < v.running.len() {
                    assert(w.running[k] == v.running[k]);
                }
            }
        }
        true
    }
}

impl Supervisor {
    /// Decide what happens after process `pid` ended, with exit `code` or by a signal.
    /// A service whose policy asks for it is restarted while it has restarts left and
    /// the system is not shutting down; otherwise it is done: failed if its restarts
    /// ran out, exited otherwise. A service that failed (restarts exhausted, nonzero
    /// code, or killed) before it was reported ready blocks the services that need it.
    /// A service not yet reported ready is reported now, releasing its dependents.
    pub fn on_exit(&mut self, pid: i32, code: i32, signaled: bool, shutting_down: bool) -> (r: ExitOutcome)
        requires
            old(self).wf(),
        ensures
            final(self).wf(),
            exit_step(old(self)@, final(self)@, r, pid, code, signaled, shutting_down),
    {
        let ghost v = self@;
        let k = match find_slot(&self.running, pid, Ghost(v.running)) {
            None => {
                return ExitOutcome::Untracked;
            },
            Some(k) => k,
        };
        let i = self.running[k].1;
        proof {
            assert(v.running[k as int].1 == i as int);
            assert(startable(v.defs[i as int]));
        }
        self.running.remove(k);
        proof {
            assert(self@.running =~= v.running.remove(k as int));
            lemma_remove_running_inv(v, k as int);
            assert(self@ =~= (SupervisorView { running: v.running.remove(k as int), ..v }));
        }
        let ghost v1 = self@;
        let j = match self.def_of[i] {
            Some(j) => j,
            None => {
                proof {
                    assert(v.defs[i as int] is None);
                }
                return ExitOutcome::Untracked;
            },
        };
        proof {
            assert(v.defs[i as int] == Some(self.services@[j as int]));
        }
        let policy = match &self.services[j].service.restart {
            Some(p) => Some(p),
            None => None,
        };
        let judged = if signaled { 1 } else { code };
        let wanted = should_restart(policy, judged, signaled);
        let count = self.restarts[i];
        proof {
            assert(v.restarts[i as int] == count as int);
        }
        if wanted && count < MAX_RESTARTS && !shutting_down {
            self.restarts.set(i, count + 1);
            let argv = exec_argv(self.services[j].service.exec_line.as_str());
            proof {
                assert(self@.restarts =~= v1.restarts.update(i as int, v1.restarts[i as int] + 1));
                lemma_inv_restart(v1, i as int);
                assert(self@ =~= (SupervisorView { restarts: v1.restarts.update(i as int, v1.restarts[i as int] + 1), ..v1 }));
            }
            return ExitOutcome::Restart(i, argv);
        }
        let exhausted = wanted && count >= MAX_RESTARTS;
        let failed = exhausted || signaled || code != 0;
        let st = if exhausted {
            ServiceState::Failed
        } else if signaled {
            ServiceState::Exited { code: -1 }
        } else {
            ServiceState::Exited { code }
        };
        self.states.set(i, st);
        if self.completed < usize::MAX {
            self.completed = self.completed + 1;
        }
        proof {
            lemma_inv_core(v1, self@);
        }
        let was_reported = self.reported[i];
        if failed && !was_reported {
            self.block_needs_dependents(i);
        }
        if !was_reported {
            let ghost s0 = self@;
            self.reported.set(i, true);
            proof {
                lemma_inv_core(s0, self@);
            }
            self.release(i);
        } else {
            proof {
                assert(self@.reported =~= v.reported.update(i as int, true));
            }
        }
        ExitOutcome::Finished(i)
    }

    /// Record that process `pid` could not be waited for (it was already reaped):
    /// it is dropped from the running table and counted as done.
    pub fn on_lost(&mut self, pid: i32)
        requires
            old(self).wf(),
        ensures
            final(self).wf(),
            final(self)@ == (SupervisorView {
                running: match running_slot(old(self)@.running, pid) {
                    Some(k) => old(self)@.running.remove(k),
                    None => old(self)@.running,
                },
                completed: saturating_inc(old(self)@.completed),
                ..old(self)@
            }),
    {
        let ghost v = self@;
        match find_slot(&self.running, pid, Ghost(v.running)) {
            Some(k) => {
                self.running.remove(k);
                proof {
                    assert(self@.running =~= v.running.remove(k as int));
                    lemma_remove_running_inv(v, k as int);
                }
            },
            None => {},
        }
        if self.completed < usize::MAX {
            self.completed = self.completed + 1;
        }
    }

    /// The run is over: every service has finished, or nothing is running any more.
    pub fn is_finished(&self) -> (r: bool)
        requires
            self.wf(),
        ensures
            r == (self@.completed >= self@.graph.defs.len() || self@.running.len() == 0),
    {
        self.completed >= self.graph.len() || self.running.len() == 0
    }

    /// The name of service `i`.
    pub fn name_of(&self, i: usize) -> (r: &String)
        requires
            self.wf(),
            i < self@.graph.defs.len(),
        ensures
            r@ == def_names(self@.graph.defs)[i as int],
    {
        self.graph.name_at(i)
    }

    /// The state of service `i`.
    pub fn state_of(&self, i: usize) -> (r: ServiceState)
        requires
            self.wf(),
            i < self@.graph.defs.len(),
        ensures
            r == self@.states[i as int],
    {
        self.states[i]
    }

    /// The definition service `i` is started from, if any.
    pub fn def_of(&self, i: usize) -> (r: Option<&ServiceDef>)
        requires
            self.wf(),
            i < self@.graph.defs.len(),
        ensures
            match r {
                Some(d) => self@.defs[i as int] == Some(*d),
                None => self@.defs[i as int] is None,
            },
    {
        match self.def_of[i] {
            Some(j) => Some(&self.services[j]),
            None => None,
        }
    }

    /// The process ids being tracked, in table order.
    pub fn running_pids(&self) -> (r: Vec<i32>)
        requires
            self.wf(),
        ensures
            r@ == self@.running.map_values(|e: (i32, int)| e.0),
    {
        let mut out: Vec<i32> = Vec::new();
        let mut k: usize = 0;
        while k < self.running.len()
            invariant
                self.wf(),
                k <= self.running@.len(),
                out@ == self@.running.take(k as int).map_values(|e: (i32, int)| e.0),
            decreases self.running@.len() - k,
        {
            out.push(self.running[k].0);
            proof {
                assert(self@.running.take(k as int + 1) =~= self@.running.take(k as int).push(self@.running[k as int]));
                assert(out@ =~= self@.running.take(k as int + 1).map_values(|e: (i32, int)| e.0));
            }
            k = k + 1;
        }
        assert(self@.running.take(self@.running.len() as int) =~= self@.running);
        out
    }
}

/// Pairs with the service position widened to a mathematical integer.
pub open spec fn widen(r: Seq<(i32, usize)>) -> Seq<(i32, int)> {
    r.map_values(|e: (i32, usize)| (e.0, e.1 as int))
}

impl Supervisor {
    /// The running processes, in the order to stop them at shutdown: no process is
    /// stopped before a process of a service that depends on its service.
    pub fn shutdown_plan(&self) -> (r: Vec<(i32, usize)>)
        requires
            self.wf(),
        ensures
            r@.len() == self@.running.len(),
            widen(r@).to_set() == self@.running.to_set(),
            forall|p: int, q: int|
                0 <= p < q < r@.len() ==> !#[trigger] service_deps(self@.graph.defs)[r@[q].1 as int].contains(
                    r@[p].1 as int,
                ),
            forall|p: int, q: int|
                0 <= p < q < r@.len() ==> !#[trigger] crate::dag::depends_transitively(
                    service_deps(self@.graph.defs),
                    r@[q].1 as int,
                    r@[p].1 as int,
                ),
    {
        let ghost v = self@;
        let ghost defs = v.graph.defs;
        let ghost run = v.running;
        proof {
            self.graph.lemma_wf();
        }
        let mut names: Vec<String> = Vec::new();
        let mut k: usize = 0;
        while k < self.running.len()
            invariant
                self.wf(),
                self@ == v,
                run == v.running,
                defs == v.graph.defs,
                k <= run.len(),
                views(names@) == run.take(k as int).map_values(|e: (i32, int)| def_names(defs)[e.1]),
            decreases run.len() - k,
        {
            let ghost before = names@;
            proof {
                assert(run[k as int] == (self.running@[k as int].0, self.running@[k as int].1 as int));
            }
            names.push(self.graph.name_at(self.running[k].1).clone());
            proof {
                assert(run.take(k as int + 1) =~= run.take(k as int).push(run[k as int]));
                assert(views(names@) =~= views(before).push(def_names(defs)[run[k as int].1]));
            }
            k = k + 1;
        }
        proof {
            assert(run.take(run.len() as int) =~= run);
        }
        let ghost rn = run.map_values(|e: (i32, int)| def_names(defs)[e.1]);
        let order = self.graph.shutdown_order(&names);
        let ghost ord = views(order@);
        let mut out: Vec<(i32, usize)> = Vec::new();
        let mut m: usize = 0;
        while m < order.len()
            invariant
                self.wf(),
                self@ == v,
                run == v.running,
                defs == v.graph.defs,
                views(names@) == rn,
                rn == run.map_values(|e: (i32, int)| def_names(defs)[e.1]),
                ord == views(order@),
                ord.to_set() == Set::new(|x: Seq<char>| def_names(defs).contains(x) && rn.contains(x)),
                m <= order@.len(),
                out@.len() == m,
                forall|q: int| 0 <= q < m ==> run.contains(#[trigger] widen(out@)[q]),
                forall|q: int| 0 <= q < m ==> def_names(defs)[#[trigger] out@[q].1 as int] == ord[q],
            decreases order@.len() - m,
        {
            let ghost x = ord[m as int];
            proof {
                assert(ord.to_set().contains(x));
                assert(rn.contains(x));
            }
            let mut c: usize = 0;
            let mut found: Option<usize> = None;
            while c < self.running.len()
                invariant
                    self.wf(),
                    self@ == v,
                    run == v.running,
                    defs == v.graph.defs,
                run == v.running,
                defs == v.graph.defs,
                    c <= run.len(),
                    m < order@.len(),
                    ord == views(order@),
                    x == ord[m as int],
                    found matches Some(f) ==> f < run.len() && def_names(defs)[run[f as int].1] == x,
                    found is None ==> forall|q: int| 0 <= q < c ==> def_names(defs)[#[trigger] run[q].1] != x,
                decreases run.len() - c,
            {
                proof {
                    assert(run[c as int] == (self.running@[c as int].0, self.running@[c as int].1 as int));
                }
                if found.is_none() && crate::text::str_eq(self.graph.name_at(self.running[c].1).as_str(), order[m].as_str()) {
                    found = Some(c);
                }
                c = c + 1;
            }
            match found {
                Some(f) => {
                    let ghost o0 = out@;
                    out.push(self.running[f]);
                    proof {
                        assert(run[f as int] == (self.running@[f as int].0, self.running@[f as int].1 as int));
                        assert(widen(out@)[m as int] == run[f as int]);
                        assert forall|q: int| 0 <= q < m + 1 implies run.contains(#[trigger] widen(out@)[q]) by {
                            if q < m {
                                assert(widen(out@)[q] == widen(o0)[q]);
                            }
                        }
                        assert forall|q: int| 0 <= q < m + 1 implies def_names(defs)[#[trigger] out@[q].1 as int] == ord[q] by {
                            if q < m {
                                assert(out@[q] == o0[q]);
                            }
                        }
                    }
                },
                None => {
                    proof {
                        let q = choose|q: int| 0 <= q < rn.len() && rn[q] == x;
                        assert(rn[q] == def_names(defs)[run[q].1]);
                        assert(false);
                    }
                },
            }
            m = m + 1;
        }
        proof {
            lemma_plan_is_permutation(v, ord, out@);
        }
        out
    }
}

/// A list of running entries named, one for one, by a duplicate-free list of all the
/// running services' names is the running table in another order.
proof fn lemma_plan_is_permutation(v: SupervisorView, ord: Seq<Seq<char>>, out: Seq<(i32, usize)>)
    requires
        supervisor_inv(v),
        def_names(v.graph.defs).no_duplicates(),
        ord.no_duplicates(),
        ord.to_set() == Set::new(
            |x: Seq<char>| def_names(v.graph.defs).contains(x) && v.running.map_values(
                |e: (i32, int)| def_names(v.graph.defs)[e.1],
            ).contains(x),
        ),
        forall|p: int, q: int| 0 <= p < q < ord.len() ==> !#[trigger] crate::graph::name_depends(v.graph.defs, ord[q], ord[p]),
        forall|p: int, q: int|
            0 <= p < q < ord.len() ==> !#[trigger] crate::graph::name_depends_transitively(v.graph.defs, ord[q], ord[p]),
        out.len() == ord.len(),
        forall|q: int| 0 <= q < out.len() ==> v.running.contains(#[trigger] widen(out)[q]),
        forall|q: int| 0 <= q < out.len() ==> def_names(v.graph.defs)[#[trigger] out[q].1 as int] == ord[q],
    ensures
        out.len() == v.running.len(),
        widen(out).to_set() == v.running.to_set(),
        forall|p: int, q: int|
            0 <= p < q < out.len() ==> !#[trigger] service_deps(v.graph.defs)[out[q].1 as int].contains(out[p].1 as int),
        forall|p: int, q: int|
            0 <= p < q < out.len() ==> !#[trigger] crate::dag::depends_transitively(
                service_deps(v.graph.defs),
                out[q].1 as int,
                out[p].1 as int,
            ),
{
    let defs = v.graph.defs;
    let run = v.running;
    let w = widen(out);
    let rn = run.map_values(|e: (i32, int)| def_names(defs)[e.1]);
    assert forall|q: int| 0 <= q < out.len() implies #[trigger] w[q].1 == out[q].1 as int && 0 <= w[q].1 < defs.len() by {
        let k = choose|k: int| 0 <= k < run.len() && run[k] == w[q];
    }
    assert(w.no_duplicates()) by {
        assert forall|a: int, b: int| 0 <= a < b < w.len() implies w[a] != w[b] by {
            assert(def_names(defs)[out[a].1 as int] == ord[a]);
            assert(def_names(defs)[out[b].1 as int] == ord[b]);
        }
    }
    assert(run.no_duplicates()) by {
        assert forall|a: int, b: int| 0 <= a < b < run.len() implies run[a] != run[b] by {
            assert(run[a].1 != run[b].1);
        }
    }
    assert forall|e: (i32, int)| run.contains(e) implies #[trigger] w.contains(e) by {
        let k = choose|k: int| 0 <= k < run.len() && run[k] == e;
        let x = def_names(defs)[e.1];
        assert(rn[k] == x);
        assert(rn.contains(x));
        assert(ord.to_set().contains(x));
        let q = choose|q: int| 0 <= q < ord.len() && ord[q] == x;
        let k2 = choose|k2: int| 0 <= k2 < run.len() && run[k2] == w[q];
        assert(def_names(defs)[w[q].1] == x);
        assert(w[q].1 == e.1);
        if k2 != k {
            if k2 < k {
                assert(run[k2].1 != run[k].1);
            } else {
                assert(run[k].1 != run[k2].1);
            }
        }
        assert(w[q] == e);
    }
    assert(w.to_set() =~= run.to_set());
    w.unique_seq_to_set();
    run.unique_seq_to_set();
    assert forall|p: int, q: int| 0 <= p < q < out.len() implies !#[trigger] service_deps(defs)[out[q].1 as int].contains(
        out[p].1 as int,
    ) by {
        if service_deps(defs)[out[q].1 as int].contains(out[p].1 as int) {
            assert(w[p].1 == out[p].1 as int);
            assert(w[q].1 == out[q].1 as int);
            assert(crate::graph::name_depends(defs, ord[q], ord[p]));
        }
    }
    assert forall|p: int, q: int| 0 <= p < q < out.len() implies !#[trigger] crate::dag::depends_transitively(
        service_deps(defs),
        out[q].1 as int,
        out[p].1 as int,
    ) by {
        if crate::dag::depends_transitively(service_deps(defs), out[q].1 as int, out[p].1 as int) {
            assert(w[p].1 == out[p].1 as int);
            assert(w[q].1 == out[q].1 as int);
            assert(crate::graph::name_depends_transitively(defs, ord[q], ord[p]));
        }
    }
}

/// The position of the last definition in `services` with the given name.
fn find_last_named(services: &Vec<ServiceDef>, name: &String) -> (r: Option<usize>)
    ensures
        match r {
            Some(j) => j < services@.len() && last_named(services@, name@) == Some(services@[j as int]),
            None => last_named(services@, name@) is None,
        },
{
    let mut k: usize = services.len();
    assert(services@.take(services@.len() as int) =~= services@);
    while k > 0
        invariant
            k <= services@.len(),
            last_named(services@, name@) == last_named(services@.take(k as int), name@),
        decreases k,
    {
        let ghost pre = services@.take(k as int);
        assert(pre.drop_last() =~= services@.take(k as int - 1));
        if crate::text::str_eq(services[k - 1].service.name.as_str(), name.as_str()) {
            assert(pre.last() == services@[k - 1]);
            return Some(k - 1);
        }
        k = k - 1;
    }
    assert(services@.take(0) =~= Seq::<ServiceDef>::empty());
    None
}

} // verus!

verus! {

/// A service is only ever queued to start once all of its dependencies have been
/// marked ready, and a service is only marked ready once it reported readiness
/// (by its readiness file or by exiting) or was given up as blocked. This holds as
/// long as the graph was fresh and no service was marked twice.
pub proof fn law_queued_services_wait_for_their_deps(s: &Supervisor)
    requires
        s.wf(),
        !s@.remarked,
    ensures
        forall|k: int|
            0 <= k < s@.to_start.len() ==> service_deps(s@.graph.defs)[#[trigger] s@.to_start[k]].subset_of(s@.marked),
        forall|a: int| #[trigger] s@.marked.contains(a) ==> s@.reported[a] || s@.blocked[a],
{
    let v = s@;
    let defs = v.graph.defs;
    let n = defs.len() as int;
    assert forall|k: int| 0 <= k < v.to_start.len() implies service_deps(defs)[#[trigger] v.to_start[k]].subset_of(v.marked) by {
        let i = v.to_start[k];
        assert(v.to_start.contains(i));
        assert(v.graph.in_degree[i] == 0);
        let ds = service_deps(defs)[i];
        let r = vstd::set_lib::set_int_range(0, n);
        vstd::set_lib::lemma_int_range(0, n);
        assert(ds.subset_of(r));
        vstd::set_lib::lemma_len_subset(ds, r);
        vstd::set_lib::lemma_len_subset(ds.difference(v.marked), ds);
        vstd::set_lib::lemma_set_empty_equivalency_len(ds.difference(v.marked));
        assert forall|j: int| ds.contains(j) implies v.marked.contains(j) by {
            if !v.marked.contains(j) {
                assert(ds.difference(v.marked).contains(j));
            }
        }
    }
}

/// No service is restarted more than `MAX_RESTARTS` times, and a service waiting in
/// the start queue has never been taken off it before.
pub proof fn law_restarts_bounded_and_starts_unique(s: &Supervisor)
    requires
        s.wf(),
    ensures
        forall|i: int| 0 <= i < s@.graph.defs.len() ==> #[trigger] s@.restarts[i] <= MAX_RESTARTS,
        forall|i: int| #[trigger] s@.to_start.contains(i) ==> !s@.launched.contains(i),
{
}

/// A supervisor set up over a freshly built graph counts every dependency as
/// not yet ready.
pub proof fn law_fresh_supervisor_counts_every_dependency(defs: Seq<ServiceDef>, s: &Supervisor)
    requires
        s.wf(),
        s@.graph.defs == defs,
        s@.graph.in_degree == crate::graph::initial_degrees(defs),
        s@.marked == Set::<int>::empty(),
        s@.remarked == !counts_unmarked(defs, s@.graph.in_degree, Set::empty()),
    ensures
        !s@.remarked,
{
    crate::graph::law_fresh_graph_counts_all_deps(defs);
}

/// One recorded end of a process: the state before, the state after, the
/// outcome, and the process id.
pub type ExitRecord = (SupervisorView, SupervisorView, ExitOutcome, i32);

/// The ends of service `i`'s processes, in order, while no shutdown is under way:
/// each is an end of a running process of service `i` (one with a state and a
/// restart count) with exit code `code` (or a death by signal), each but the last led to a restart, and between two ends nothing
/// changed the definitions or the restart count (starting the new process,
/// readiness signals and other services' events leave them alone).
pub open spec fn same_exits(runs: Seq<ExitRecord>, i: int, code: i32, signaled: bool) -> bool {
    &&& forall|k: int|
        0 <= k < runs.len() ==> {
            let (v, w, r, pid) = #[trigger] runs[k];
            &&& exit_step(v, w, r, pid, code, signaled, false)
            &&& running_slot(v.running, pid) matches Some(s) && v.running[s].1 == i
            &&& 0 <= i < v.restarts.len()
            &&& i < v.states.len()
        }
    &&& forall|k: int| 0 <= k < runs.len() - 1 ==> (#[trigger] runs[k]).2 is Restart
    &&& forall|k: int|
        0 <= k < runs.len() - 1 ==> (#[trigger] runs[k + 1]).0.restarts[i] == runs[k].1.restarts[i]
            && runs[k + 1].0.defs == runs[k].1.defs
}

/// A service whose every run ends the same way is restarted after each end as
/// long as its policy asks for it and fewer than `MAX_RESTARTS` restarts were
/// made: so it runs `1 + MAX_RESTARTS` times and then ends `Failed` when the
/// policy asks for restarts, and runs once and ends `Exited` when it does not.
pub proof fn law_same_exits_restart_then_stop(runs: Seq<ExitRecord>, i: int, code: i32, signaled: bool)
    requires
        runs.len() >= 1,
        runs[0].0.restarts[i] == 0,
        same_exits(runs, i, code, signaled),
    ensures
        forall|k: int| 0 <= k < runs.len() ==> (#[trigger] runs[k]).0.restarts[i] == k,
        forall|k: int|
            0 <= k < runs.len() ==> ((#[trigger] runs[k]).2 is Restart <==> (restart_wanted(
                policy_of(runs[0].0.defs[i]),
                judged_code(code, signaled),
                signaled,
            ) && k < MAX_RESTARTS)),
        restart_wanted(policy_of(runs[0].0.defs[i]), judged_code(code, signaled), signaled) ==> runs.len()
            <= MAX_RESTARTS + 1,
        restart_wanted(policy_of(runs[0].0.defs[i]), judged_code(code, signaled), signaled) && runs.last().2 is Finished
            ==> runs.len() == MAX_RESTARTS + 1 && runs.last().1.states[i] == ServiceState::Failed,
        !restart_wanted(policy_of(runs[0].0.defs[i]), judged_code(code, signaled), signaled) ==> runs.len() == 1
            && runs[0].2 is Finished && runs[0].1.states[i] == final_state(false, code, signaled),
{
    let wanted = restart_wanted(policy_of(runs[0].0.defs[i]), judged_code(code, signaled), signaled);
    let n = runs.len() as int;
    assert forall|k: int| 0 <= k < n implies (#[trigger] runs[k]).0.restarts[i] == k && runs[k].0.defs == runs[0].0.defs
        && ((runs[k].2 is Restart) <==> (wanted && k < MAX_RESTARTS)) by {
        lemma_same_exits_step(runs, i, code, signaled, k);
    }
    if wanted {
        if n > MAX_RESTARTS + 1 {
            let k = MAX_RESTARTS as int;
            assert(runs[k].2 is Restart);
        }
        if runs.last().2 is Finished {
            let k = n - 1;
            assert(runs[k] == runs.last());
            assert(!(k < MAX_RESTARTS));
            let (v, w, r, pid) = runs[k];
            assert(exit_step(v, w, r, pid, code, signaled, false));
            let s = running_slot(v.running, pid)->Some_0;
            assert(v.running[s].1 == i);
        }
    } else {
        if n > 1 {
            assert(runs[0].2 is Restart);
        }
        let (v, w, r, pid) = runs[0];
        assert(exit_step(v, w, r, pid, code, signaled, false));
        let s = running_slot(v.running, pid)->Some_0;
        assert(v.running[s].1 == i);
    }
}

/// The `k`th recorded end finds `k` restarts made and the first definitions, and
/// leads to a restart exactly while restarts are wanted and fewer than the limit.
proof fn lemma_same_exits_step(runs: Seq<ExitRecord>, i: int, code: i32, signaled: bool, k: int)
    requires
        runs.len() >= 1,
        runs[0].0.restarts[i] == 0,
        same_exits(runs, i, code, signaled),
        0 <= k < runs.len(),
    ensures
        runs[k].0.restarts[i] == k,
        runs[k].0.defs == runs[0].0.defs,
        (runs[k].2 is Restart) <==> (restart_wanted(policy_of(runs[0].0.defs[i]), judged_code(code, signaled), signaled)
            && k < MAX_RESTARTS),
    decreases k,
{
    if k > 0 {
        lemma_same_exits_step(runs, i, code, signaled, k - 1);
        let (v, w, r, pid) = runs[k - 1];
        assert(exit_step(v, w, r, pid, code, signaled, false));
        assert(runs[k - 1].2 is Restart);
        let s = running_slot(v.running, pid)->Some_0;
        assert(running_slot(v.running, pid) == Some(s));
        assert(v.running[s].1 == i);
        assert(w.restarts[i] == v.restarts[i] + 1);
        assert(w.defs == v.defs);
        assert(runs[k].0.restarts[i] == w.restarts[i]);
    }
    let (v, w, r, pid) = runs[k];
    assert(exit_step(v, w, r, pid, code, signaled, false));
    let s = running_slot(v.running, pid)->Some_0;
    assert(running_slot(v.running, pid) == Some(s));
    assert(v.running[s].1 == i);
    assert((r is Restart) <==> (restart_wanted(policy_of(v.defs[i]), judged_code(code, signaled), signaled)
        && v.restarts[i] < MAX_RESTARTS));
}

/// A service once blocked stays blocked and is never started: taking it off the
/// start queue reports it `Blocked`, records it `Failed`, blocks the services that
/// hard-depend on it in turn, and marks it ready so that services that only
/// order themselves after it are still released.
pub proof fn law_blocked_service_never_starts(v: SupervisorView, w: SupervisorView, r: Launch)
    requires
        supervisor_inv(v),
        v.to_start.len() > 0,
        launch_step(v, w, r),
    ensures
        forall|j: int| 0 <= j < v.blocked.len() && #[trigger] v.blocked[j] ==> w.blocked[j],
        r matches Launch::Start(k, _) ==> !v.blocked[k as int],
        r matches Launch::Blocked(k) ==> {
            &&& v.blocked[k as int]
            &&& w.states[k as int] == ServiceState::Failed
            &&& w.marked.contains(k as int)
            &&& forall|y: int|
                0 <= y < v.blocked.len() && #[trigger] service_needs(v.graph.defs)[y].contains(k as int) ==> w.blocked[y]
        },
{
    let i = v.to_start.last();
    assert(v.to_start.contains(i)) by {
        assert(v.to_start[v.to_start.len() - 1] == i);
    }
    assert(0 <= i < v.blocked.len());
}

/// A service whose process ends for good in failure (a non-zero code, a death by
/// signal, or restarts used up) before it ever reported ready blocks every
/// service that hard-depends on it; no service is ever unblocked.
pub proof fn law_failure_blocks_hard_dependents(
    v: SupervisorView,
    w: SupervisorView,
    r: ExitOutcome,
    pid: i32,
    code: i32,
    signaled: bool,
    shutting_down: bool,
)
    requires
        supervisor_inv(v),
        exit_step(v, w, r, pid, code, signaled, shutting_down),
    ensures
        forall|j: int| 0 <= j < v.blocked.len() && #[trigger] v.blocked[j] ==> w.blocked[j],
        r matches ExitOutcome::Finished(i) ==> (!v.reported[i as int] && (code != 0 || signaled || w.states[i as int]
            == ServiceState::Failed) ==> forall|y: int|
            0 <= y < v.blocked.len() && #[trigger] service_needs(v.graph.defs)[y].contains(i as int) ==> w.blocked[y]),
        forall|y: int|
            0 <= y < v.blocked.len() && #[trigger] w.blocked[y] && !v.blocked[y] ==> (r matches ExitOutcome::Finished(i)
                && !v.reported[i as int] && service_needs(v.graph.defs)[y].contains(i as int)),
        r matches ExitOutcome::Finished(i) ==> (!signaled && code == 0 && w.states[i as int] != ServiceState::Failed
            ==> w.blocked == v.blocked),
{
    if let Some(k) = running_slot(v.running, pid) {
        let i = v.running[k].1;
        assert(0 <= i < v.blocked.len());
    }
}

/// Each service leaves the start queue at most once: taking the next service
/// off the queue takes one never taken before, and only services exist to be
/// taken; so the queue empties after at most as many launches as there are
/// services, and the run is over once it is empty and no child runs.
pub proof fn law_each_launch_takes_a_new_service(v: SupervisorView, w: SupervisorView, r: Launch)
    requires
        supervisor_inv(v),
        v.to_start.len() > 0,
        launch_step(v, w, r),
    ensures
        !v.launched.contains(v.to_start.last()),
        0 <= v.to_start.last() < v.graph.defs.len(),
        w.launched == v.launched.insert(v.to_start.last()),
        forall|i: int| #[trigger] w.launched.contains(i) ==> 0 <= i < w.graph.defs.len(),
{
    let i = v.to_start.last();
    assert(v.to_start.contains(i)) by {
        assert(v.to_start[v.to_start.len() - 1] == i);
    }
}

/// When a process ends and its service had already been reported ready, no
/// service becomes blocked, whatever the exit code: only a failure before
/// readiness blocks the services that hard-depend on it.
pub proof fn law_failure_after_readiness_blocks_nothing(
    v: SupervisorView,
    w: SupervisorView,
    r: ExitOutcome,
    pid: i32,
    code: i32,
    signaled: bool,
    shutting_down: bool,
)
    requires
        supervisor_inv(v),
        exit_step(v, w, r, pid, code, signaled, shutting_down),
        running_slot(v.running, pid) matches Some(k) && v.reported[v.running[k].1],
    ensures
        w.blocked == v.blocked,
{
}

} // verus!
