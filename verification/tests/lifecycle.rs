//! The endpoint lifecycle, driven by a host that keeps its sockets in memory.
//!
//! The host binds, stops and drains what it is told to; a connection is told
//! apart by the remote of the listener that accepted it.

use std::collections::HashMap;

use realm::conf::endpoint::{EndpointConf, Lookups};
use realm::conf::material::Material;
use realm::conf::net::NetConf;
use realm::control::api;
use realm::control::api::Route;
use realm::control::status::{endpoint_status, generation_status};
use realm::endpoint::{Endpoint, RemoteAddr};
use realm::idmap::IdMap;
use realm::io::{ErrorKind, IoError};
use realm::lifecycle::manager::{Action, Bound, EndpointManager, Next, StartRequest, TaskReport};
use realm::lifecycle::plan::DesiredEndpoint;
use realm::lifecycle::reconcile::{
    derive_id, Answer, EndpointResult, GenerationState, Need, ReconcileError, ReconcileRequest, ReconcileResponse,
    Reconciler, Step,
};
use realm::lifecycle::restore::RestoreStep;
use realm::lifecycle::snapshot::{Envelope, FileRead, RestoreOutcome, Snapshot, SnapshotStore};
use realm::lifecycle::types::{
    DrainPolicy, EndpointSpec, EndpointStatus, Proto, SlotAction, SlotOutcome, SlotState, SlotStatus,
};
use realm::net::SocketAddr;
use realm::startup::{starting_point, static_endpoint, Startup};
use realm::time::Duration;

// --------------------------------------------------------------------- host --

struct Task {
    id: u64,
    proto: Proto,
    laddr: SocketAddr,
    remote: String,
    listening: bool,
    ended: bool,
    connections: usize,
    draining: bool,
    deadline: Option<Duration>,
}

#[derive(Default)]
struct Host {
    next: u64,
    tasks: Vec<Task>,
    /// addresses somebody else holds
    foreign: Vec<(Proto, SocketAddr)>,
    /// what the files hold that descriptions name
    files: HashMap<String, Vec<u8>>,
    /// how often a description was refreshed, by its listen address
    refreshes: HashMap<String, usize>,
    /// listen addresses whose descriptions cannot be refreshed
    unrefreshable: Vec<String>,
}

fn show(remote: &RemoteAddr) -> String {
    match remote {
        RemoteAddr::SocketAddr(a) => a.render(),
        RemoteAddr::DomainName(host, port) => format!("{}:{}", host, port),
    }
}

impl Host {
    fn task(&mut self, id: u64) -> &mut Task {
        self.tasks.iter_mut().find(|t| t.id == id).expect("a task the host started")
    }

    fn perform(&mut self, actions: Vec<Action>) {
        for action in actions {
            match action {
                Action::Stop { task } => self.task(task).listening = false,
                Action::Drain { task, deadline, .. } => {
                    let t = self.task(task);
                    assert!(!t.listening, "only a stopped task drains");
                    t.draining = true;
                    t.deadline = deadline;
                    if deadline == Some(Duration::from_secs(0)) {
                        t.connections = 0;
                    }
                    if t.connections == 0 {
                        t.ended = true;
                    }
                }
            }
        }
    }

    fn is_free(&self, proto: Proto, laddr: SocketAddr) -> bool {
        !self.foreign.contains(&(proto, laddr))
            && !self.tasks.iter().any(|t| t.listening && t.proto == proto && t.laddr == laddr)
    }

    fn start(&mut self, request: StartRequest) -> Result<Bound, String> {
        let laddr = request.endpoint.laddr;
        if !self.is_free(request.proto, laddr) {
            return Err(String::from("Address already in use (os error 98)"));
        }
        self.next += 1;
        self.tasks.push(Task {
            id: self.next,
            proto: request.proto,
            laddr,
            remote: show(&request.endpoint.raddr),
            listening: true,
            ended: false,
            connections: 0,
            draining: false,
            deadline: None,
        });
        Ok(Bound { laddr, task: self.next })
    }

    fn finished(&self) -> Vec<u64> {
        self.tasks.iter().filter(|t| t.ended).map(|t| t.id).collect()
    }

    fn reports(&self) -> Vec<TaskReport> {
        self.tasks
            .iter()
            .map(|t| TaskReport {
                task: t.id,
                connections: t.connections,
                age: Duration::from_millis(1500),
                draining_for: if t.draining { Some(Duration::from_millis(500)) } else { None },
            })
            .collect()
    }

    /// Open a connection, and give back the task that took it.
    fn connect(&mut self, proto: Proto, laddr: SocketAddr) -> Option<u64> {
        let t = self.tasks.iter_mut().find(|t| t.listening && t.proto == proto && t.laddr == laddr)?;
        t.connections += 1;
        Some(t.id)
    }

    /// The remote a connection reaches, while it is alive.
    fn reaches(&mut self, connection: u64) -> Option<String> {
        let t = self.task(connection);
        if t.connections > 0 {
            Some(t.remote.clone())
        } else {
            None
        }
    }

    fn close(&mut self, connection: u64) {
        let t = self.task(connection);
        t.connections -= 1;
        if t.connections == 0 && t.draining {
            t.ended = true;
        }
    }

    fn refresh(&mut self, mut conf: EndpointConf) -> Result<EndpointConf, String> {
        *self.refreshes.entry(conf.listen.clone()).or_default() += 1;
        if self.unrefreshable.contains(&conf.listen) {
            return Err(String::from("refreshing the endpoint failed: it panicked"));
        }
        let paths = conf.material_paths();
        let read = |path: &Option<String>| path.as_ref().and_then(|p| self.files.get(p).cloned());
        let read = Material { cert: read(&paths.cert), key: read(&paths.key), ca: read(&paths.ca) };
        conf.refresh(&read);
        Ok(conf)
    }

    fn answer(&mut self, need: Need<EndpointConf>) -> Answer<EndpointConf> {
        match need {
            Need::Refresh(confs) => Answer::Refreshed(confs.into_iter().map(|c| self.refresh(c)).collect()),
            Need::Build(confs) => Answer::Built(
                confs
                    .into_iter()
                    .map(|c| match c {
                        Some(c) => c.build_spec(&lookups(&c)),
                        None => Err(String::from("not asked for")),
                    })
                    .collect(),
            ),
            Need::Poll => Answer::Polled(self.finished()),
            Need::Start(request) => Answer::Started(self.start(request)),
        }
    }
}

/// A dotted address with a port, as it stands.
fn addr(s: &str) -> Option<SocketAddr> {
    let (ip, port) = s.rsplit_once(':')?;
    let mut octets = Vec::new();
    for part in ip.split('.') {
        octets.push(part.parse::<u8>().ok()?);
    }
    if octets.len() != 4 {
        return None;
    }
    Some(SocketAddr::v4(octets[0], octets[1], octets[2], octets[3], port.parse().ok()?))
}

fn lookups(conf: &EndpointConf) -> Lookups {
    Lookups {
        listen: match addr(&conf.listen) {
            Some(a) => Ok(vec![a]),
            None => Err(String::from("invalid socket address")),
        },
        remote: addr(&conf.remote),
        extra_remotes: conf.extra_remotes.iter().map(|r| addr(r)).collect(),
        through: None,
        through_ip: Err(String::from("invalid IP address syntax")),
        trust: None,
        acceptor: None,
        connector: None,
    }
}

fn port(n: u16) -> SocketAddr {
    SocketAddr::v4(127, 0, 0, 1, n)
}

const V1: &str = "127.0.0.1:1001";
const V2: &str = "127.0.0.1:1002";
const V3: &str = "127.0.0.1:1003";

// ------------------------------------------------------------------ manager --

fn spec(laddr: SocketAddr, remote: &str) -> EndpointSpec {
    EndpointSpec {
        endpoint: Endpoint {
            laddr,
            raddr: RemoteAddr::SocketAddr(addr(remote).unwrap()),
            bind_opts: Default::default(),
            conn_opts: Default::default(),
            extra_raddrs: Vec::new(),
        },
        tcp: true,
        udp: false,
        drain: None,
        material: None,
    }
}

fn apply(
    mgr: &mut EndpointManager,
    host: &mut Host,
    id: &str,
    generation: u64,
    spec: EndpointSpec,
) -> Vec<SlotOutcome> {
    let mut actions = Vec::new();
    let mut next = mgr.apply(id.to_string(), generation, spec, &host.finished(), &mut actions);
    loop {
        host.perform(actions);
        actions = Vec::new();
        match next {
            Next::Done(outcomes) => return outcomes,
            Next::More(op) => {
                let started = host.start(op.awaits());
                next = mgr.resume(op, started, &mut actions);
            }
        }
    }
}

fn remove(mgr: &mut EndpointManager, host: &mut Host, id: &str, generation: u64) -> Vec<SlotOutcome> {
    let mut actions = Vec::new();
    let outcomes = mgr.remove(id, generation, &host.finished(), &mut actions);
    host.perform(actions);
    outcomes
}

fn find(status: Vec<EndpointStatus>, id: &str, proto: Proto) -> SlotStatus {
    status
        .into_iter()
        .find(|s| s.id == id)
        .expect("endpoint is known")
        .slots
        .into_iter()
        .find(|s| s.proto == proto)
        .expect("slot is known")
}

fn slot(mgr: &mut EndpointManager, host: &Host, id: &str, proto: Proto) -> SlotStatus {
    find(mgr.status(&host.finished(), &host.reports()), id, proto)
}

fn is_failed(state: &SlotState) -> bool {
    matches!(state, SlotState::Failed(_))
}

fn is_running(state: &SlotState) -> bool {
    matches!(state, SlotState::Running)
}

/// A bound endpoint reports running only once it is actually serving.
#[test]
fn a_started_endpoint_reports_running_and_relays() {
    let mut host = Host::default();
    let laddr = port(1);

    let mut mgr = EndpointManager::new();
    let outcome = apply(&mut mgr, &mut host, "a", 1, spec(laddr, V1));

    assert_eq!(outcome.len(), 1);
    assert_eq!(outcome[0].action, SlotAction::Created);
    assert_eq!(outcome[0].proto, Proto::Tcp);

    let status = slot(&mut mgr, &host, "a", Proto::Tcp);
    assert!(is_running(&status.state));
    assert_eq!(status.generation, 1);
    assert_eq!(status.laddr, Some(laddr));

    let c = host.connect(Proto::Tcp, laddr).unwrap();
    assert_eq!(host.reaches(c).as_deref(), Some(V1));
    assert_eq!(slot(&mut mgr, &host, "a", Proto::Tcp).connections, 1);
}

/// A failing bind leaves the previous listener serving and the slot is reported
/// failed, never running.
#[test]
fn failed_bind_restores_the_previous_listener() {
    let mut host = Host::default();
    let laddr = port(1);

    let mut mgr = EndpointManager::new();
    apply(&mut mgr, &mut host, "a", 1, spec(laddr, V1));
    let established = host.connect(Proto::Tcp, laddr).unwrap();

    // a new generation that moves to an address somebody else already owns
    let taken = port(2);
    host.foreign.push((Proto::Tcp, taken));

    let outcome = apply(&mut mgr, &mut host, "a", 2, spec(taken, V2));
    assert_eq!(outcome[0].action, SlotAction::Failed);
    assert!(outcome[0].error.as_deref().unwrap_or_default().contains("bind"));
    assert_eq!(
        outcome[0].error.as_deref(),
        Some("failed to bind 127.0.0.1:2: Address already in use (os error 98)")
    );

    let status = slot(&mut mgr, &host, "a", Proto::Tcp);
    assert!(is_failed(&status.state), "state must be failed, got {:?}", status.state);
    assert_eq!(status.generation, 1, "the serving generation is still the old one");

    // the old listener kept serving, on its old address, with its old remote
    let fresh = host.connect(Proto::Tcp, laddr).unwrap();
    assert_eq!(host.reaches(fresh).as_deref(), Some(V1));
    assert_eq!(host.reaches(established).as_deref(), Some(V1));
}

/// A same-address replacement whose bind fails gets its own listener back.
#[test]
fn a_failed_rebind_restarts_the_previous_listener() {
    let mut host = Host::default();
    let laddr = port(1);
    let mut mgr = EndpointManager::new();
    apply(&mut mgr, &mut host, "a", 1, spec(laddr, V1));
    let established = host.connect(Proto::Tcp, laddr).unwrap();

    let mut actions = Vec::new();
    let op = match mgr.apply("a".to_string(), 2, spec(laddr, V2), &host.finished(), &mut actions) {
        Next::More(op) => op,
        Next::Done(_) => panic!("a listener has to be started"),
    };
    // the own listener is stopped before the address is bound again
    assert_eq!(actions, vec![Action::Stop { task: established }]);
    host.perform(actions);

    let mut actions = Vec::new();
    let op = match mgr.resume(op, Err(String::from("no")), &mut actions) {
        Next::More(op) => op,
        Next::Done(_) => panic!("the previous listener has to be started"),
    };
    assert!(actions.is_empty());
    let request = op.awaits();
    assert_eq!(show(&request.endpoint.raddr), V1);
    assert_eq!(request.generation, 1);

    let started = host.start(request);
    let mut actions = Vec::new();
    let outcomes = match mgr.resume(op, started, &mut actions) {
        Next::Done(outcomes) => outcomes,
        Next::More(_) => panic!("nothing is left to do"),
    };
    host.perform(actions);
    assert_eq!(outcomes[0].action, SlotAction::Failed);
    assert_eq!(outcomes[0].error.as_deref(), Some("failed to bind 127.0.0.1:1: no"));
    let again = host.connect(Proto::Tcp, laddr).unwrap();
    assert_eq!(host.reaches(again).as_deref(), Some(V1));
    assert_eq!(host.reaches(established).as_deref(), Some(V1));
    assert_eq!(slot(&mut mgr, &host, "a", Proto::Tcp).generation, 1);
}

/// Replacing an endpoint on the same address keeps the established connections
/// on the old generation, visible as a draining cohort.
#[test]
fn same_address_replacement_drains_the_old_generation() {
    let mut host = Host::default();
    let laddr = port(1);

    let mut mgr = EndpointManager::new();
    apply(&mut mgr, &mut host, "a", 1, spec(laddr, V1));
    let old = host.connect(Proto::Tcp, laddr).unwrap();

    let outcome = apply(&mut mgr, &mut host, "a", 2, spec(laddr, V2));
    assert_eq!(outcome[0].action, SlotAction::Updated);

    // the established connection keeps talking to the old remote
    assert_eq!(host.reaches(old).as_deref(), Some(V1));

    // new connections get the new one
    let new = host.connect(Proto::Tcp, laddr).unwrap();
    assert_eq!(host.reaches(new).as_deref(), Some(V2));

    let status = slot(&mut mgr, &host, "a", Proto::Tcp);
    assert!(is_running(&status.state));
    assert_eq!(status.generation, 2);
    assert_eq!(status.connections, 1, "one connection on the new generation");

    let draining = status.draining;
    assert_eq!(draining.len(), 1, "the old generation is a draining cohort");
    assert_eq!(draining[0].generation, 1);
    assert_eq!(draining[0].connections, 1);

    // an update drains indefinitely by default: the old connection stays
    assert_eq!(host.task(old).deadline, None);
    assert_eq!(host.reaches(old).as_deref(), Some(V1));

    // when it ends on its own, the cohort disappears from the status
    host.close(old);
    assert!(slot(&mut mgr, &host, "a", Proto::Tcp).draining.is_empty());
}

/// Deleting an endpoint releases the listener immediately and force-closes
/// whatever is left after the drain deadline.
#[test]
fn delete_releases_the_port_and_forces_the_drain_deadline() {
    let mut host = Host::default();
    let laddr = port(1);

    let mut mgr = EndpointManager::with_policy(DrainPolicy {
        on_update: None,
        on_delete: Some(Duration::from_millis(200)),
    });
    apply(&mut mgr, &mut host, "a", 1, spec(laddr, V1));
    let lingering = host.connect(Proto::Tcp, laddr).unwrap();

    let outcome = remove(&mut mgr, &mut host, "a", 2);
    assert_eq!(outcome[0].action, SlotAction::Deleted);

    // the port is reusable right away
    assert!(host.is_free(Proto::Tcp, laddr), "listener socket must be released on delete");

    // the lingering connection is force-closed once the deadline expires
    assert!(host.task(lingering).draining);
    assert_eq!(host.task(lingering).deadline, Some(Duration::from_millis(200)));

    assert!(
        mgr.status(&host.finished(), &host.reports()).iter().all(|e| e.id != "a"),
        "a deleted endpoint disappears from the status"
    );
    assert!(!mgr.contains("a"));
}

/// The two protocols of one rule succeed or fail independently.
#[test]
fn protocols_of_one_rule_are_tracked_independently() {
    let mut host = Host::default();
    let laddr = port(1);

    // hold the udp port so that only the udp slot fails
    host.foreign.push((Proto::Udp, laddr));

    let mut mgr = EndpointManager::new();
    let mut both = spec(laddr, V1);
    both.udp = true;

    let outcome = apply(&mut mgr, &mut host, "a", 1, both);
    assert_eq!(outcome.len(), 2, "one result per (id, protocol)");

    let tcp = outcome.iter().find(|o| o.proto == Proto::Tcp).unwrap();
    let udp = outcome.iter().find(|o| o.proto == Proto::Udp).unwrap();
    assert_eq!(tcp.action, SlotAction::Created);
    assert_eq!(udp.action, SlotAction::Failed);

    assert!(is_running(&slot(&mut mgr, &host, "a", Proto::Tcp).state));
    assert!(is_failed(&slot(&mut mgr, &host, "a", Proto::Udp).state));
}

/// An endpoint can be validated without any side effect.
#[test]
fn validation_has_no_side_effect() {
    let host = Host::default();
    let laddr = port(1);

    let mgr = EndpointManager::new();
    assert!(mgr.validate(&spec(laddr, V1)).is_ok());

    // nothing was bound by validating
    assert!(host.is_free(Proto::Tcp, laddr), "validation must not bind anything");
    assert!(mgr.ids().is_empty());
}

/// A spec that enables neither protocol is rejected by validation, which has no
/// protocol to report under; it must still produce an outcome so that the
/// generation is seen as failed instead of silently applied.
#[test]
fn a_spec_with_no_protocol_is_reported_failed_not_silently_applied() {
    let mut host = Host::default();
    let mut mgr = EndpointManager::new();
    let mut s = spec(port(1), V1);
    s.tcp = false;
    s.udp = false;

    let outcome = apply(&mut mgr, &mut host, "a", 1, s);
    assert!(!outcome.is_empty(), "a rejected spec must still produce an outcome");
    assert!(
        outcome.iter().all(|o| o.action == SlotAction::Failed),
        "every reported protocol is failed: {:?}",
        outcome
    );
    assert_eq!(
        outcome[0].retryable,
        Some(false),
        "a spec that makes no sense is terminal"
    );
    assert!(outcome[0].error.as_deref().unwrap_or_default().contains("neither"));
}

/// A same-address udp replacement while an association is alive: the old
/// listener is replaced, the manager reports it updated, and a fresh datagram
/// reaches the new remote.
#[test]
fn same_address_udp_replacement_reaches_the_new_remote() {
    let mut host = Host::default();
    let laddr = port(1);

    let mut mgr = EndpointManager::new();
    let mut s = spec(laddr, V1);
    s.tcp = false;
    s.udp = true;
    let outcome = apply(&mut mgr, &mut host, "a", 1, s);
    assert_eq!(outcome.len(), 1);
    assert_eq!(outcome[0].proto, Proto::Udp);
    assert_eq!(outcome[0].action, SlotAction::Created);

    // establish an association through the udp endpoint
    let old = host.connect(Proto::Udp, laddr).unwrap();
    assert_eq!(host.reaches(old).as_deref(), Some(V1));

    // replace on the same address with a different remote
    let mut s2 = spec(laddr, V2);
    s2.tcp = false;
    s2.udp = true;
    let outcome = apply(&mut mgr, &mut host, "a", 2, s2);
    assert_eq!(
        outcome[0].action,
        SlotAction::Updated,
        "a same-address udp change is a replacement: {:?}",
        outcome
    );

    let status = slot(&mut mgr, &host, "a", Proto::Udp);
    assert!(is_running(&status.state));
    assert_eq!(status.generation, 2);

    // a fresh association reaches the new remote, and the old one was ended
    let fresh = host.connect(Proto::Udp, laddr).unwrap();
    assert_eq!(host.reaches(fresh).as_deref(), Some(V2));
    assert_eq!(host.task(old).deadline, Some(Duration::from_secs(0)));
    assert_eq!(host.reaches(old), None);
}

/// A changed address is brought up before the old one is given up.
#[test]
fn a_moved_endpoint_starts_before_it_stops() {
    let mut host = Host::default();
    let mut mgr = EndpointManager::new();
    apply(&mut mgr, &mut host, "a", 1, spec(port(1), V1));
    let old = host.connect(Proto::Tcp, port(1)).unwrap();

    let mut actions = Vec::new();
    let next = mgr.apply("a".to_string(), 2, spec(port(2), V2), &host.finished(), &mut actions);
    assert!(actions.is_empty(), "nothing is stopped before the new address is bound");
    assert!(matches!(next, Next::More(_)));
    if let Next::More(op) = next {
        let started = host.start(op.awaits());
        mgr.resume(op, started, &mut actions);
    }
    assert_eq!(
        actions,
        vec![
            Action::Stop { task: old },
            Action::Drain { task: old, generation: 1, deadline: None },
        ]
    );
}

/// A serving task that exits on its own turns its slot failed.
#[test]
fn a_task_that_ends_on_its_own_turns_its_slot_failed() {
    let mut host = Host::default();
    let mut mgr = EndpointManager::new();
    apply(&mut mgr, &mut host, "a", 1, spec(port(1), V1));
    host.tasks[0].listening = false;
    host.tasks[0].ended = true;

    let status = slot(&mut mgr, &host, "a", Proto::Tcp);
    match status.state {
        SlotState::Failed(e) => assert_eq!(e, "serving task exited unexpectedly"),
        other => panic!("expected a failed slot, got {:?}", other),
    }
    assert_eq!(status.laddr, None);
    assert!(mgr.active_endpoint("a", Proto::Tcp).is_none());
}

/// What already serves exactly what is asked for is left alone.
#[test]
fn a_slot_that_serves_the_same_is_unchanged() {
    let mut host = Host::default();
    let mut mgr = EndpointManager::new();
    apply(&mut mgr, &mut host, "a", 1, spec(port(1), V1));
    let outcome = apply(&mut mgr, &mut host, "a", 2, spec(port(1), V1));
    assert_eq!(outcome[0].action, SlotAction::Unchanged);
    assert_eq!(host.tasks.len(), 1);
    assert_eq!(slot(&mut mgr, &host, "a", Proto::Tcp).generation, 1);

    // other material is another endpoint, though nothing else differs
    let mut rotated = spec(port(1), V1);
    rotated.material = Some(7);
    let outcome = apply(&mut mgr, &mut host, "a", 3, rotated);
    assert_eq!(outcome[0].action, SlotAction::Updated);
}

/// A protocol that is no longer asked for goes as in a delete.
#[test]
fn a_protocol_that_is_dropped_is_deleted() {
    let mut host = Host::default();
    let mut mgr = EndpointManager::new();
    let mut both = spec(port(1), V1);
    both.udp = true;
    apply(&mut mgr, &mut host, "a", 1, both);
    let outcome = apply(&mut mgr, &mut host, "a", 2, spec(port(1), V1));
    assert_eq!(outcome.len(), 2);
    assert_eq!(outcome[0].action, SlotAction::Unchanged);
    assert_eq!(outcome[1].proto, Proto::Udp);
    assert_eq!(outcome[1].action, SlotAction::Deleted);
    assert_eq!(host.tasks[1].deadline, Some(Duration::from_secs(30)));
    assert!(host.is_free(Proto::Udp, port(1)));
}

/// Stopping to accept keeps what was accepted, under the given deadline.
#[test]
fn established_connections_survive_stop_accept() {
    let mut host = Host::default();
    let mut mgr = EndpointManager::new();
    apply(&mut mgr, &mut host, "a", 1, spec(port(1), V1));
    let c = host.connect(Proto::Tcp, port(1)).unwrap();

    let mut actions = Vec::new();
    let outcome = mgr
        .stop_accept("a", Proto::Tcp, Some(Duration::from_secs(9)), &mut actions)
        .unwrap();
    assert_eq!(outcome.action, SlotAction::Draining);
    host.perform(actions);

    assert_eq!(host.reaches(c).as_deref(), Some(V1));
    assert_eq!(host.task(c).deadline, Some(Duration::from_secs(9)));
    assert!(host.connect(Proto::Tcp, port(1)).is_none());
    assert!(matches!(slot(&mut mgr, &host, "a", Proto::Tcp).state, SlotState::Draining));
    assert_eq!(mgr.wait_drained("a"), vec![c]);
    assert!(slot(&mut mgr, &host, "a", Proto::Tcp).draining.is_empty());

    // there is nothing left to stop
    let mut actions = Vec::new();
    assert!(mgr.stop_accept("a", Proto::Tcp, None, &mut actions).is_none());
    assert!(mgr.stop_accept("b", Proto::Tcp, None, &mut actions).is_none());
    assert!(actions.is_empty());
}

// --------------------------------------------------------------- reconciler --

fn tcp(laddr: SocketAddr, remote: &str) -> EndpointConf {
    EndpointConf::plain(laddr.render(), remote.to_string())
}

fn both(laddr: SocketAddr, remote: &str) -> EndpointConf {
    let mut c = tcp(laddr, remote);
    c.network.use_udp = Some(true);
    c
}

/// A rule whose remote transport names a trust anchor.
fn anchored(laddr: SocketAddr, remote: &str) -> EndpointConf {
    let mut c = tcp(laddr, remote);
    c.remote_transport = Some(String::from("tls;sni=example.com;ca=/m/ca.pem"));
    c
}

fn request(generation: u64, endpoints: &[(&str, EndpointConf)]) -> ReconcileRequest<EndpointConf> {
    ReconcileRequest {
        generation,
        endpoints: endpoints
            .iter()
            .map(|(id, spec)| DesiredEndpoint { id: (*id).to_string(), spec: spec.clone() })
            .collect(),
    }
}

fn reconcile(
    rec: &mut Reconciler<EndpointConf>,
    host: &mut Host,
    request: ReconcileRequest<EndpointConf>,
) -> Result<ReconcileResponse, ReconcileError> {
    let mut step = rec.reconcile(request);
    loop {
        match step {
            Step::Reply(answer) => return answer,
            Step::Applied(response) => return Ok(response),
            Step::More(pending) => {
                let answer = host.answer(rec.need(&pending));
                let mut actions = Vec::new();
                step = rec.resume(pending, answer, &mut actions);
                host.perform(actions);
            }
        }
    }
}

fn status(rec: &mut Reconciler<EndpointConf>, host: &Host) -> Vec<EndpointStatus> {
    rec.status(&host.finished(), &host.reports())
}

fn result<'a>(response: &'a ReconcileResponse, id: &str) -> &'a EndpointResult {
    response.results.iter().find(|r| r.id == id).unwrap()
}

fn result_for<'a>(response: &'a ReconcileResponse, id: &str, proto: Proto) -> &'a EndpointResult {
    response.results.iter().find(|r| r.id == id && r.proto == proto).unwrap()
}

/// Changing one endpoint leaves the others completely alone.
#[test]
fn only_the_changed_endpoint_is_touched() {
    let mut host = Host::default();
    let (a, b, c) = (port(1), port(2), port(3));

    let mut rec = Reconciler::new();
    let response = reconcile(
        &mut rec,
        &mut host,
        request(1, &[("a", tcp(a, V1)), ("b", tcp(b, V1)), ("c", tcp(c, V1))]),
    )
    .expect("first generation applies");
    assert_eq!(response.state, GenerationState::Applied);
    assert_eq!(response.results.len(), 3);
    assert!(response.results.iter().all(|r| r.action == SlotAction::Created));

    // established connections on b and c
    let on_b = host.connect(Proto::Tcp, b).unwrap();
    let on_c = host.connect(Proto::Tcp, c).unwrap();

    // only a changes
    let response = reconcile(
        &mut rec,
        &mut host,
        request(2, &[("a", tcp(a, V2)), ("b", tcp(b, V1)), ("c", tcp(c, V1))]),
    )
    .expect("second generation applies");

    assert_eq!(result(&response, "a").action, SlotAction::Updated);
    assert_eq!(result(&response, "b").action, SlotAction::Unchanged);
    assert_eq!(result(&response, "c").action, SlotAction::Unchanged);

    // b and c were not disturbed at all
    assert_eq!(host.reaches(on_b).as_deref(), Some(V1));
    assert_eq!(host.reaches(on_c).as_deref(), Some(V1));
    assert!(host.task(on_b).listening && host.task(on_c).listening);

    // and a serves the new remote
    let on_a = host.connect(Proto::Tcp, a).unwrap();
    assert_eq!(host.reaches(on_a).as_deref(), Some(V2));
}

/// Resubmitting a generation returns the first result and changes nothing.
#[test]
fn resubmitting_a_generation_is_idempotent() {
    let mut host = Host::default();
    let a = port(1);

    let mut rec = Reconciler::new();
    let first = reconcile(&mut rec, &mut host, request(7, &[("a", tcp(a, V1))])).unwrap();
    let established = host.connect(Proto::Tcp, a).unwrap();

    let second = reconcile(&mut rec, &mut host, request(7, &[("a", tcp(a, V1))])).unwrap();
    assert_eq!(first.results.len(), second.results.len());
    assert_eq!(second.results[0].action, first.results[0].action);
    assert_eq!(second.generation, first.generation);

    // the established connection was never disturbed
    assert_eq!(host.reaches(established).as_deref(), Some(V1));
    assert_eq!(status(&mut rec, &host).len(), 1, "no duplicate endpoint was created");
    assert_eq!(host.tasks.len(), 1);
}

/// An older generation is refused, and the response says which generation is
/// active.
#[test]
fn stale_generations_are_refused() {
    let mut host = Host::default();
    let a = port(1);

    let mut rec = Reconciler::new();
    reconcile(&mut rec, &mut host, request(42, &[("a", tcp(a, V1))])).unwrap();

    let err = reconcile(&mut rec, &mut host, request(41, &[("a", tcp(a, V1))]))
        .expect_err("older generation must be refused");
    match err {
        ReconcileError::Stale { active } => assert_eq!(active, 42),
        ref other => panic!("expected a stale-generation error, got {:?}", other),
    }
    assert!(!err.is_retryable(), "a stale generation is terminal");
    assert_eq!(err.message(), "stale generation, active generation is 42");
}

/// An invalid endpoint is reported with a structured error while the rest of the
/// generation is applied.
#[test]
fn an_invalid_endpoint_does_not_block_the_others() {
    let mut host = Host::default();
    let good = port(1);
    let bad = EndpointConf::plain(String::from("definitely not an address"), String::from(V1));

    let mut rec = Reconciler::new();
    let response = reconcile(
        &mut rec,
        &mut host,
        request(1, &[("good", tcp(good, V1)), ("bad", bad)]),
    )
    .unwrap();

    assert_eq!(response.state, GenerationState::PartiallyApplied);

    let bad_result = result(&response, "bad");
    assert_eq!(bad_result.action, SlotAction::Failed);
    assert!(bad_result.error.as_deref().unwrap_or_default().contains("listen"));

    let good_result = result(&response, "good");
    assert_eq!(good_result.action, SlotAction::Created);

    // the good one really is serving
    assert!(host.connect(Proto::Tcp, good).is_some());
}

/// The static mode's derived ids make the first equivalent submission a no-op.
#[test]
fn derived_ids_make_the_first_takeover_a_no_op() {
    let mut host = Host::default();
    let a = port(1);

    // generation 0, as the static mode submits it
    let derived = derive_id(&a, true, false);
    let mut rec = Reconciler::new();
    reconcile(&mut rec, &mut host, request(0, &[(derived.as_str(), tcp(a, V1))])).unwrap();
    let established = host.connect(Proto::Tcp, a).unwrap();

    // the caller computes the same id and submits the same desired state
    let response = reconcile(&mut rec, &mut host, request(1, &[(derived.as_str(), tcp(a, V1))])).unwrap();

    assert_eq!(response.state, GenerationState::Applied);
    assert!(
        response.results.iter().all(|r| r.action == SlotAction::Unchanged),
        "an equivalent desired state must not rebuild anything: {:?}",
        response.results
    );
    assert_eq!(host.reaches(established).as_deref(), Some(V1));
}

/// Two submissions of one generation are applied once and answered identically.
#[test]
fn concurrent_submissions_of_one_generation_collapse() {
    let mut host = Host::default();
    let a = port(1);

    // submissions are taken one after the other
    let mut rec = Reconciler::new();
    let first = reconcile(&mut rec, &mut host, request(3, &[("a", tcp(a, V1))])).unwrap();
    let second = reconcile(&mut rec, &mut host, request(3, &[("a", tcp(a, V1))])).unwrap();

    // both submissions answer with the same result: the second one replayed it
    assert_eq!(first.generation, second.generation);
    assert_eq!(first.state, second.state);
    assert_eq!(first.results.len(), second.results.len());
    for (a, b) in first.results.iter().zip(second.results.iter()) {
        assert_eq!(a.id, b.id);
        assert_eq!(a.proto, b.proto);
        assert_eq!(a.action, b.action);
    }

    // and the generation was applied exactly once
    let statuses = status(&mut rec, &host);
    assert_eq!(statuses.len(), 1, "no duplicate endpoint");
    assert_eq!(statuses[0].slots.len(), 1);
    assert_eq!(statuses[0].slots[0].generation, 3);
}

/// The two protocols of a rule report separately, and a partial failure surfaces
/// as a partially-applied generation.
#[test]
fn one_protocol_failing_yields_a_partially_applied_generation() {
    let mut host = Host::default();
    let a = port(1);

    // occupy the udp side of the address
    host.foreign.push((Proto::Udp, a));

    let mut rec = Reconciler::new();
    let response = reconcile(&mut rec, &mut host, request(1, &[("a", both(a, V1))])).unwrap();

    assert_eq!(response.state, GenerationState::PartiallyApplied);
    assert_eq!(result_for(&response, "a", Proto::Tcp).action, SlotAction::Created);
    assert_eq!(result_for(&response, "a", Proto::Udp).action, SlotAction::Failed);
}

/// Two endpoints swapping their listen addresses converge in one reconcile,
/// without either bind hitting an address in use.
#[test]
fn endpoints_can_swap_their_addresses_in_one_generation() {
    let mut host = Host::default();
    let (x, y) = (port(1), port(2));

    let mut rec = Reconciler::new();
    reconcile(&mut rec, &mut host, request(1, &[("a", tcp(x, V1)), ("b", tcp(y, V2))])).unwrap();

    let response = reconcile(&mut rec, &mut host, request(2, &[("a", tcp(y, V1)), ("b", tcp(x, V2))])).unwrap();
    assert_eq!(
        response.state,
        GenerationState::Applied,
        "the swap must succeed: {:?}",
        response.results
    );

    // a now answers on y, b on x
    let on_y = host.connect(Proto::Tcp, y).unwrap();
    assert_eq!(host.reaches(on_y).as_deref(), Some(V1));
    let on_x = host.connect(Proto::Tcp, x).unwrap();
    assert_eq!(host.reaches(on_x).as_deref(), Some(V2));
}

/// Duplicate listen address and protocol within one generation is rejected
/// deterministically, before anything is bound.
#[test]
fn duplicate_listen_addresses_in_one_generation_fail_both() {
    let mut host = Host::default();
    let a = port(1);

    let mut rec = Reconciler::new();
    let response = reconcile(
        &mut rec,
        &mut host,
        request(1, &[("first", tcp(a, V1)), ("second", tcp(a, V1))]),
    )
    .unwrap();

    assert_eq!(response.state, GenerationState::PartiallyApplied);
    assert!(
        response.results.iter().all(|r| r.action == SlotAction::Failed),
        "both conflicting endpoints must fail: {:?}",
        response.results
    );
    assert!(
        response
            .results
            .iter()
            .all(|r| r.error.as_deref().unwrap_or_default().contains("duplicate")),
        "the error must name the conflict"
    );

    // nothing was bound
    assert!(host.is_free(Proto::Tcp, a));
    assert!(host.tasks.is_empty());
}

/// An empty desired state deletes everything.
#[test]
fn an_empty_desired_state_removes_every_endpoint() {
    let mut host = Host::default();
    let a = port(1);

    let mut rec = Reconciler::new();
    reconcile(&mut rec, &mut host, request(1, &[("a", tcp(a, V1))])).unwrap();

    let response = reconcile(&mut rec, &mut host, request(2, &[])).unwrap();
    assert_eq!(response.state, GenerationState::Applied);
    assert_eq!(response.results.len(), 1);
    assert_eq!(response.results[0].action, SlotAction::Deleted);

    assert!(status(&mut rec, &host).is_empty());
    assert!(host.is_free(Proto::Tcp, a), "the port was released");
}

/// A failed endpoint heals when a later generation resubmits it.
#[test]
fn a_failed_endpoint_is_retried_by_the_next_generation() {
    let mut host = Host::default();
    let a = port(1);
    host.foreign.push((Proto::Tcp, a));

    let mut rec = Reconciler::new();
    let response = reconcile(&mut rec, &mut host, request(1, &[("a", tcp(a, V1))])).unwrap();
    assert_eq!(response.results[0].action, SlotAction::Failed);
    assert_eq!(response.state, GenerationState::PartiallyApplied);
    assert_eq!(rec.active_generation(), Some(1));

    // the conflict goes away and the same desired state is resubmitted
    host.foreign.clear();
    let response = reconcile(&mut rec, &mut host, request(2, &[("a", tcp(a, V1))])).unwrap();
    assert_eq!(response.state, GenerationState::Applied);
    assert_eq!(response.results[0].action, SlotAction::Created);
    assert!(host.connect(Proto::Tcp, a).is_some());
}

/// A replace whose bind fails keeps the old listener serving, so the id is still
/// one the manager holds: a later empty desired state must delete it.
#[test]
fn a_failed_replacement_is_still_deleted_by_a_later_empty_state() {
    let mut host = Host::default();
    let x = port(1);

    let mut rec = Reconciler::new();
    reconcile(&mut rec, &mut host, request(1, &[("a", tcp(x, V1))])).unwrap();

    // block the address a is asked to move to, so the move fails
    let y = port(2);
    host.foreign.push((Proto::Tcp, y));

    let response = reconcile(&mut rec, &mut host, request(2, &[("a", tcp(y, V2))])).unwrap();
    assert_eq!(response.state, GenerationState::PartiallyApplied);
    assert_eq!(response.results[0].action, SlotAction::Failed);

    // the old listener is still serving on x
    let on_x = host.connect(Proto::Tcp, x).unwrap();
    assert_eq!(host.reaches(on_x).as_deref(), Some(V1));

    // an empty desired state must delete the retained listener too
    let response = reconcile(&mut rec, &mut host, request(3, &[])).unwrap();
    assert!(
        response
            .results
            .iter()
            .any(|r| r.id == "a" && r.action == SlotAction::Deleted),
        "the retained old listener must be deleted: {:?}",
        response.results
    );
    assert!(
        status(&mut rec, &host).is_empty(),
        "no endpoint may survive an empty desired state"
    );
    assert!(host.is_free(Proto::Tcp, x), "x must be released");
}

/// One protocol failing must not evict the healthy sibling. Resubmitting the same
/// desired state reports the healthy protocol `unchanged` and retries only the
/// failed one.
#[test]
fn a_partial_protocol_failure_leaves_the_healthy_sibling_untouched() {
    let mut host = Host::default();
    let a = port(1);

    // hold the udp side so only udp fails
    host.foreign.push((Proto::Udp, a));

    let mut rec = Reconciler::new();
    let response = reconcile(&mut rec, &mut host, request(1, &[("a", both(a, V1))])).unwrap();
    assert_eq!(response.state, GenerationState::PartiallyApplied);

    // an established connection on the healthy tcp side
    let established = host.connect(Proto::Tcp, a).unwrap();

    // resubmit the same desired state
    let response = reconcile(&mut rec, &mut host, request(2, &[("a", both(a, V1))])).unwrap();
    assert_eq!(
        result_for(&response, "a", Proto::Tcp).action,
        SlotAction::Unchanged,
        "the healthy tcp side must be left untouched: {:?}",
        response.results
    );
    assert_eq!(
        result_for(&response, "a", Proto::Udp).action,
        SlotAction::Failed,
        "the failed udp side is retried"
    );

    // the established connection was never rebound
    assert_eq!(host.reaches(established).as_deref(), Some(V1));
    assert!(host.task(established).listening);
}

/// A failed endpoint the caller stops declaring must disappear from status.
#[test]
fn a_dropped_failed_endpoint_disappears_from_status() {
    let mut host = Host::default();
    let a = port(1);
    host.foreign.push((Proto::Tcp, a));

    let mut rec = Reconciler::new();
    let response = reconcile(&mut rec, &mut host, request(1, &[("a", tcp(a, V1))])).unwrap();
    assert_eq!(response.results[0].action, SlotAction::Failed);
    assert!(
        status(&mut rec, &host).iter().any(|e| e.id == "a"),
        "a failed but still-desired endpoint is visible"
    );

    // stop declaring it
    host.foreign.clear();
    reconcile(&mut rec, &mut host, request(2, &[])).unwrap();
    assert!(
        status(&mut rec, &host).iter().all(|e| e.id != "a"),
        "a failed endpoint the caller dropped must not linger"
    );
}

/// A new endpoint colliding with a still-listening `unchanged` incumbent must
/// fail as a deterministic terminal duplicate, and the incumbent must be
/// untouched.
#[test]
fn a_new_endpoint_colliding_with_an_unchanged_incumbent_is_terminal() {
    let mut host = Host::default();
    let a = port(1);

    let mut rec = Reconciler::new();
    reconcile(&mut rec, &mut host, request(1, &[("a", tcp(a, V1))])).unwrap();

    let response = reconcile(&mut rec, &mut host, request(2, &[("a", tcp(a, V1)), ("b", tcp(a, V1))])).unwrap();

    assert_eq!(response.state, GenerationState::PartiallyApplied);
    assert_eq!(result(&response, "a").action, SlotAction::Unchanged, "the incumbent is untouched");

    let b_res = result(&response, "b");
    assert_eq!(b_res.action, SlotAction::Failed);
    assert_eq!(
        b_res.retryable,
        Some(false),
        "a collision with a live incumbent is terminal, not a retryable bind race"
    );
    assert!(
        b_res.error.as_deref().unwrap_or_default().contains("duplicate"),
        "the error must name the conflict: {:?}",
        b_res.error
    );

    // the incumbent keeps serving
    let on_a = host.connect(Proto::Tcp, a).unwrap();
    assert_eq!(host.reaches(on_a).as_deref(), Some(V1));
}

/// A deleted endpoint whose address is taken over by another endpoint of the
/// same generation must still force-close its connections on the delete
/// deadline.
#[test]
fn a_delete_keeps_its_force_close_deadline_when_its_address_is_taken_over() {
    let mut host = Host::default();
    let x = port(1);
    let mut leaving = tcp(x, V1);
    leaving.delete_drain_timeout = Some(2);

    let mut rec = Reconciler::new();
    reconcile(&mut rec, &mut host, request(1, &[("a", leaving)])).unwrap();

    // a lingering connection on a
    let lingering = host.connect(Proto::Tcp, x).unwrap();

    // delete a, and let b take over its address x in one generation
    let response = reconcile(&mut rec, &mut host, request(2, &[("b", tcp(x, V2))])).unwrap();
    assert_eq!(response.state, GenerationState::Applied);

    // b serves on x now
    let on_x = host.connect(Proto::Tcp, x).unwrap();
    assert_eq!(host.reaches(on_x).as_deref(), Some(V2));

    // a's lingering connection is force-closed on a's own delete deadline
    assert!(host.task(lingering).draining);
    assert_eq!(host.task(lingering).deadline, Some(Duration::from_secs(2)));
}

/// An address swap where one side's new configuration cannot be bound must not
/// strand a listener that was serving.
#[test]
fn an_address_swap_with_a_bind_invalid_side_never_strands_a_listener() {
    let mut host = Host::default();
    let y = port(1); // "a" listens here
    let x = port(2); // "z" listens here

    let mut rec = Reconciler::new();
    reconcile(&mut rec, &mut host, request(1, &[("a", tcp(y, V1)), ("z", tcp(x, V2))])).unwrap();

    // an address that cannot be bound, held by a foreign listener
    let bad = port(3);
    host.foreign.push((Proto::Tcp, bad));

    // "a" moves onto the address that cannot be bound; "z" moves onto a's old
    // address y. y is released for z, then a's move fails.
    let response = reconcile(&mut rec, &mut host, request(2, &[("a", tcp(bad, V1)), ("z", tcp(y, V3))])).unwrap();
    assert_eq!(response.state, GenerationState::PartiallyApplied);

    // a still has its original listener on y
    let on_y = host.connect(Proto::Tcp, y).expect("y must still have a listener");
    assert_eq!(
        host.reaches(on_y).as_deref(),
        Some(V1),
        "a's original listener must survive on y"
    );
    assert!(result(&response, "a").error.as_deref().unwrap().ends_with("(previous listener restored)"));

    // z keeps its own old listener on x, since its move onto y could not complete
    let on_x = host.connect(Proto::Tcp, x).expect("z must keep its listener on x");
    assert_eq!(host.reaches(on_x).as_deref(), Some(V2));
}

/// Two controllers reusing one generation for different desired states must not
/// both be told the first one succeeded.
#[test]
fn a_same_generation_with_different_content_is_refused() {
    let mut host = Host::default();
    let (a, b) = (port(1), port(2));

    let mut rec = Reconciler::new();
    reconcile(&mut rec, &mut host, request(5, &[("a", tcp(a, V1))])).unwrap();

    let err = reconcile(&mut rec, &mut host, request(5, &[("b", tcp(b, V2))]))
        .expect_err("a same-generation content mismatch must be refused");
    match err {
        ReconcileError::Stale { active } => assert_eq!(active, 5),
        other => panic!("expected a terminal refusal, got {:?}", other),
    }

    // the first desired state is untouched: a serves, b was never bound
    let on_a = host.connect(Proto::Tcp, a).unwrap();
    assert_eq!(host.reaches(on_a).as_deref(), Some(V1));
    assert!(host.is_free(Proto::Tcp, b), "the mismatched submission bound nothing");

    // an identical resubmission of generation 5 still replays cleanly
    let replay = reconcile(&mut rec, &mut host, request(5, &[("a", tcp(a, V1))])).unwrap();
    assert_eq!(replay.generation, 5);
    assert_eq!(replay.results.len(), 1);
    assert_eq!(replay.results[0].action, SlotAction::Created);
}

/// The order in which endpoints are listed is no part of the content.
#[test]
fn a_resubmission_in_another_order_replays() {
    let mut host = Host::default();
    let (a, b) = (port(1), port(2));
    let mut rec = Reconciler::new();
    reconcile(&mut rec, &mut host, request(5, &[("a", tcp(a, V1)), ("b", tcp(b, V1))])).unwrap();
    let replay = reconcile(&mut rec, &mut host, request(5, &[("b", tcp(b, V1)), ("a", tcp(a, V1))])).unwrap();
    assert!(replay.results.iter().all(|r| r.action == SlotAction::Created));
}

/// A change of the deadlines alone is an update, and the new deadline counts: that
/// is how traffic is stopped without a delete.
#[test]
fn an_update_of_the_deadlines_alone_drains_under_the_new_ones() {
    let mut host = Host::default();
    let mut rec = Reconciler::new();
    let laddr = port(1);
    reconcile(&mut rec, &mut host, request(1, &[("a", tcp(laddr, V1)), ("b", tcp(port(2), V1))])).unwrap();
    let first = host.connect(Proto::Tcp, laddr).unwrap();
    let other = host.connect(Proto::Tcp, port(2)).unwrap();

    // another delete deadline: replaced, what was accepted runs on
    let mut later = tcp(laddr, V1);
    later.delete_drain_timeout = Some(5);
    let response =
        reconcile(&mut rec, &mut host, request(2, &[("a", later.clone()), ("b", tcp(port(2), V1))])).unwrap();
    assert_eq!(result(&response, "a").action, SlotAction::Updated);
    assert_eq!(result(&response, "b").action, SlotAction::Unchanged);
    assert_eq!(host.task(first).deadline, None);
    assert_eq!(host.reaches(first).as_deref(), Some(V1));
    let second = host.connect(Proto::Tcp, laddr).unwrap();
    assert!(second != first);

    // no time left after an update: everything accepted so far is cut
    let mut ban = later.clone();
    ban.update_drain_timeout = Some(0);
    let response =
        reconcile(&mut rec, &mut host, request(3, &[("a", ban.clone()), ("b", tcp(port(2), V1))])).unwrap();
    assert_eq!(response.state, GenerationState::Applied);
    assert_eq!(result(&response, "a").action, SlotAction::Updated);
    assert_eq!(host.task(second).deadline, Some(Duration::from_secs(0)));
    assert_eq!(host.reaches(second), None);
    assert_eq!(find(status(&mut rec, &host), "a", Proto::Tcp).generation, 3);
    let third = host.connect(Proto::Tcp, laddr).unwrap();
    assert_eq!(host.reaches(third).as_deref(), Some(V1));

    // the same deadlines again: nothing happens
    let response = reconcile(&mut rec, &mut host, request(4, &[("a", ban), ("b", tcp(port(2), V1))])).unwrap();
    assert_eq!(result(&response, "a").action, SlotAction::Unchanged);
    assert_eq!(host.connect(Proto::Tcp, laddr), Some(third));
    assert_eq!(host.reaches(other).as_deref(), Some(V1));
}

/// Whatever is submitted, the active generation does not fall, and what is refused
/// changes nothing.
#[test]
fn the_active_generation_never_falls() {
    let mut host = Host::default();
    let mut rec = Reconciler::new();
    host.foreign.push((Proto::Tcp, port(9)));

    let good = [("a", tcp(port(1), V1))];
    let bad = [("a", tcp(port(9), V1))];
    // each with whether it succeeds, what is active then, and whether it is partial
    let steps: Vec<(u64, &[(&str, EndpointConf)], bool, u64, bool)> = vec![
        (3, &good, true, 3, false),
        (2, &good, false, 3, false),
        (3, &good, true, 3, false),
        (3, &bad, false, 3, false),
        (5, &bad, true, 5, true),
        (4, &good, false, 5, true),
        (5, &bad, true, 5, true),
        (6, &good, true, 6, false),
    ];
    for (generation, endpoints, succeeds, active, partial) in steps {
        let answer = reconcile(&mut rec, &mut host, request(generation, endpoints));
        assert_eq!(answer.is_ok(), succeeds);
        if let Ok(response) = answer {
            assert_eq!(response.generation, generation);
            assert_eq!(response.state == GenerationState::PartiallyApplied, partial);
        }
        assert_eq!(rec.active_generation(), Some(active));
        assert_eq!(rec.is_partial(), partial);
        assert!(is_served_at(&mut rec, &host, port(1)));
    }
}

fn is_served_at(rec: &mut Reconciler<EndpointConf>, host: &Host, laddr: SocketAddr) -> bool {
    status(rec, host).iter().any(|e| e.slots.iter().any(|s| s.laddr == Some(laddr)))
}

/// The status lists ids in order, each with its slots; a listen address means
/// running or failed.
#[test]
fn the_status_is_in_order() {
    let mut host = Host::default();
    let mut rec = Reconciler::new();
    host.foreign.push((Proto::Udp, port(2)));
    host.foreign.push((Proto::Tcp, port(9)));
    let mut shown = |rec: &mut Reconciler<EndpointConf>, host: &Host| {
        let list = status(rec, host);
        assert!(list.windows(2).all(|w| w[0].id < w[1].id));
        for e in &list {
            let protos: Vec<Proto> = e.slots.iter().map(|s| s.proto).collect();
            assert!(protos == [Proto::Tcp] || protos == [Proto::Udp] || protos == [Proto::Tcp, Proto::Udp]);
            for s in &e.slots {
                assert!(!is_running(&s.state) || s.laddr.is_some());
                assert!(s.laddr.is_none() || is_running(&s.state) || is_failed(&s.state));
                assert!(s.laddr.is_some() || s.connections == 0);
            }
        }
        list.len()
    };

    let wanted = [("b", both(port(2), V1)), ("a", tcp(port(1), V1)), ("c", tcp(port(9), V1))];
    reconcile(&mut rec, &mut host, request(1, &wanted)).unwrap();
    assert_eq!(shown(&mut rec, &host), 3);

    // a move that fails keeps the old listener, a task that ends leaves a failed slot
    host.tasks[1].ended = true;
    reconcile(&mut rec, &mut host, request(2, &[("a", tcp(port(9), V1)), ("b", tcp(port(2), V1))])).unwrap();
    assert_eq!(shown(&mut rec, &host), 2);
    host.tasks[0].ended = true;
    assert_eq!(shown(&mut rec, &host), 2);
    reconcile(&mut rec, &mut host, request(3, &[])).unwrap();
    assert_eq!(shown(&mut rec, &host), 0);
}

/// What listens is what some slot serves, whatever a generation did.
fn assert_no_listener_is_lost(rec: &mut Reconciler<EndpointConf>, host: &Host) {
    let served: Vec<(Proto, SocketAddr)> = status(rec, host)
        .into_iter()
        .flat_map(|e| e.slots)
        .filter_map(|s| s.laddr.map(|laddr| (s.proto, laddr)))
        .collect();
    let listening: Vec<(Proto, SocketAddr)> =
        host.tasks.iter().filter(|t| t.listening && !t.ended).map(|t| (t.proto, t.laddr)).collect();
    assert_eq!(served.len(), listening.len());
    assert!(listening.iter().all(|l| served.contains(l)));
}

/// Listeners are kept or stopped, through moves, swaps, failures and removals.
#[test]
fn every_listener_is_served_or_stopped() {
    let mut host = Host::default();
    let mut rec = Reconciler::new();
    host.foreign.push((Proto::Tcp, port(9)));

    let generations: Vec<Vec<(&str, EndpointConf)>> = vec![
        vec![("a", both(port(1), V1)), ("b", tcp(port(2), V1))],
        // swapped
        vec![("a", both(port(2), V1)), ("b", tcp(port(1), V1))],
        // one moves to where it cannot bind, one to where the first came from
        vec![("a", both(port(9), V1)), ("b", tcp(port(2), V2))],
        // another remote, and a protocol less
        vec![("a", tcp(port(3), V2)), ("b", tcp(port(2), V3)), ("c", tcp(port(1), V1))],
        vec![("c", tcp(port(1), V1))],
        vec![],
    ];
    for (i, endpoints) in generations.iter().enumerate() {
        reconcile(&mut rec, &mut host, request(i as u64 + 1, endpoints)).unwrap();
        assert_no_listener_is_lost(&mut rec, &host);
    }
    assert!(host.tasks.iter().all(|t| !t.listening));
}

/// An id that is submitted twice is refused, and nothing of it is bound.
#[test]
fn an_id_submitted_twice_is_refused() {
    let mut host = Host::default();
    let mut rec = Reconciler::new();
    let response = reconcile(
        &mut rec,
        &mut host,
        request(1, &[("a", tcp(port(1), V1)), ("a", tcp(port(2), V1))]),
    )
    .unwrap();
    assert_eq!(response.results.len(), 1);
    assert_eq!(
        response.results[0].error.as_deref(),
        Some("duplicate endpoint id `a` in one generation")
    );
    assert_eq!(response.results[0].retryable, Some(false));
    assert!(host.tasks.is_empty());
}

/// Every submitted endpoint has its derived state refreshed exactly once per
/// generation.
#[test]
fn every_submitted_endpoint_is_refreshed_once_per_generation() {
    let mut host = Host::default();
    let (a, b) = (port(1), port(2));
    let seen = |host: &Host, a: SocketAddr| host.refreshes.get(&a.render()).copied().unwrap_or(0);

    let mut rec = Reconciler::new();
    reconcile(&mut rec, &mut host, request(1, &[("a", tcp(a, V1)), ("b", tcp(b, V1))])).unwrap();
    assert_eq!(seen(&host, a), 1, "a is refreshed once for generation 1");
    assert_eq!(seen(&host, b), 1, "b is refreshed once for generation 1");

    reconcile(&mut rec, &mut host, request(2, &[("a", tcp(a, V1)), ("b", tcp(b, V1))])).unwrap();
    assert_eq!(seen(&host, a), 2, "a is refreshed once more for generation 2");
    assert_eq!(seen(&host, b), 2, "b is refreshed once more for generation 2");
}

/// Material changes without any field of the description changing. The refreshed
/// derived state must make that a replace.
#[test]
fn rotated_material_makes_an_otherwise_identical_spec_a_replace() {
    let mut host = Host::default();
    let a = port(1);
    host.files.insert(String::from("/m/ca.pem"), b"before".to_vec());

    let mut rec = Reconciler::new();
    reconcile(&mut rec, &mut host, request(1, &[("a", anchored(a, V1))])).unwrap();
    let first = host.connect(Proto::Tcp, a).unwrap();

    // the material behind the endpoint is replaced in place
    host.files.insert(String::from("/m/ca.pem"), b"after".to_vec());

    let response = reconcile(&mut rec, &mut host, request(2, &[("a", anchored(a, V1))])).unwrap();
    assert_eq!(
        response.results[0].action,
        SlotAction::Updated,
        "rotated material must rebuild the endpoint: {:?}",
        response.results
    );

    // and the endpoint really serves anew
    let second = host.connect(Proto::Tcp, a).unwrap();
    assert!(second != first);
}

/// A genuine retry, with the same generation, the same description and unchanged
/// material, still replays the first answer.
#[test]
fn a_retry_with_unchanged_material_still_replays() {
    let mut host = Host::default();
    let a = port(1);
    // the material is already something other than its default
    host.files.insert(String::from("/m/ca.pem"), b"anchor".to_vec());

    let mut rec = Reconciler::new();
    let first = reconcile(&mut rec, &mut host, request(5, &[("a", anchored(a, V1))])).unwrap();
    assert_eq!(first.results[0].action, SlotAction::Created);
    let established = host.connect(Proto::Tcp, a).unwrap();

    let replay = reconcile(&mut rec, &mut host, request(5, &[("a", anchored(a, V1))]))
        .expect("an unchanged retry of the active generation replays");
    assert_eq!(replay.generation, 5);
    assert_eq!(replay.results.len(), first.results.len());
    assert_eq!(replay.results[0].action, first.results[0].action);

    // nothing was disturbed a second time
    assert!(host.task(established).listening);
    assert_eq!(status(&mut rec, &host).len(), 1, "no duplicate endpoint was created");
}

/// Once the material has rotated, the active generation's answer no longer
/// describes what the endpoint is serving; the resubmission is refused.
#[test]
fn a_generation_resubmitted_after_its_material_rotated_is_refused() {
    let mut host = Host::default();
    let a = port(1);
    host.files.insert(String::from("/m/ca.pem"), b"before".to_vec());

    let mut rec = Reconciler::new();
    reconcile(&mut rec, &mut host, request(5, &[("a", anchored(a, V1))])).unwrap();
    let first = host.connect(Proto::Tcp, a).unwrap();

    host.files.insert(String::from("/m/ca.pem"), b"after".to_vec());

    let err = reconcile(&mut rec, &mut host, request(5, &[("a", anchored(a, V1))]))
        .expect_err("the active generation's answer no longer holds");
    match err {
        ReconcileError::Stale { active } => assert_eq!(active, 5),
        ref other => panic!("expected a terminal refusal, got {:?}", other),
    }
    assert!(!err.is_retryable(), "resubmitting the same generation cannot help");

    // the endpoint was not disturbed
    assert!(host.task(first).listening);

    // and the next generation applies the rotated material
    let response = reconcile(&mut rec, &mut host, request(6, &[("a", anchored(a, V1))])).unwrap();
    assert_eq!(response.results[0].action, SlotAction::Updated);
    assert!(!host.task(first).listening);
}

#[test]
fn an_endpoint_whose_refresh_panics_fails_alone() {
    let mut host = Host::default();
    let a = port(1);
    host.unrefreshable.push(a.render());

    let mut rec = Reconciler::new();
    let response = reconcile(&mut rec, &mut host, request(1, &[("a", tcp(a, V1))]))
        .expect("the reconciler survives a refresh that does not come back");

    assert_eq!(response.state, GenerationState::PartiallyApplied);
    assert_eq!(response.results[0].action, SlotAction::Failed);
    let error = response.results[0].error.as_deref().unwrap_or_default();
    assert!(
        error.contains("refresh"),
        "the failure must name what could not run, got: {}",
        error
    );

    // the reconciler is still answering
    assert_eq!(status(&mut rec, &host).len(), 0);
}

/// An answer that is too short counts against the endpoints it leaves out.
#[test]
fn endpoints_without_an_answer_fail_alone() {
    let mut rec: Reconciler<EndpointConf> = Reconciler::new();
    let mut actions = Vec::new();
    let pending = match rec.reconcile(request(1, &[("a", tcp(port(1), V1))])) {
        Step::More(p) => p,
        _ => panic!("a submission waits for its descriptions to be refreshed"),
    };
    let pending = match rec.resume(pending, Answer::Refreshed(Vec::new()), &mut actions) {
        Step::More(p) => p,
        _ => panic!("a submission waits for its descriptions to be built"),
    };
    let response = match rec.resume(pending, Answer::Built(Vec::new()), &mut actions) {
        Step::Applied(r) => r,
        _ => panic!("nothing is left to do"),
    };
    assert_eq!(response.results[0].error.as_deref(), Some("refreshing the endpoint failed: no answer"));
    assert!(actions.is_empty());
}

/// An answer to something that was not asked changes nothing.
#[test]
fn an_answer_that_was_not_asked_for_changes_nothing() {
    let mut host = Host::default();
    let mut rec: Reconciler<EndpointConf> = Reconciler::new();
    let mut actions = Vec::new();
    let mut step = rec.reconcile(request(1, &[("a", tcp(port(1), V1))]));
    for _ in 0..3 {
        step = match step {
            Step::More(p) => rec.resume(p, Answer::Started(Err(String::from("?"))), &mut actions),
            other => other,
        };
    }
    assert!(actions.is_empty());
    let response = loop {
        step = match step {
            Step::More(p) => {
                let answer = host.answer(rec.need(&p));
                rec.resume(p, answer, &mut actions)
            }
            Step::Applied(r) => break r,
            Step::Reply(_) => panic!("the generation is new"),
        };
    };
    assert_eq!(response.results[0].action, SlotAction::Created);
}

/// A reconciler that lost a request is a retryable failure.
#[test]
fn an_internal_failure_is_retryable() {
    let e = ReconcileError::Internal(String::from("it panicked"));
    assert!(e.is_retryable());
    assert_eq!(e.message(), "internal error: it panicked");
    let f = api::reconcile_error(&e);
    assert_eq!((f.code, f.kind, f.retryable), (500, "internal", true));
}

// ----------------------------------------------------------------- snapshot --

/// What is in the state file, if there is one.
fn read_back(rec: &Reconciler<EndpointConf>) -> FileRead<EndpointConf> {
    match rec.snapshot() {
        Some(snapshot) => FileRead::Parsed(SnapshotStore::envelope(snapshot)),
        None => missing(),
    }
}

fn restore(
    rec: &mut Reconciler<EndpointConf>,
    host: &mut Host,
    read: FileRead<EndpointConf>,
) -> Result<RestoreOutcome, IoError> {
    let mut step = rec.restore(read);
    loop {
        match step {
            RestoreStep::Done(outcome) => return outcome,
            RestoreStep::More(restoring) => {
                let answer = host.answer(restoring.need());
                let mut actions = Vec::new();
                step = rec.resume_restore(restoring, answer, &mut actions);
                host.perform(actions);
            }
        }
    }
}

fn missing() -> FileRead<EndpointConf> {
    FileRead::Failed(IoError { kind: ErrorKind::NotFound, message: String::from("No such file or directory") })
}

fn persistent() -> Reconciler<EndpointConf> {
    Reconciler::with_snapshot(SnapshotStore::new(String::from("/run/realm/state.json")))
}

fn shutdown(rec: &mut Reconciler<EndpointConf>, host: &mut Host) {
    let mut actions = Vec::new();
    rec.shutdown(&host.finished(), &mut actions);
    host.perform(actions);
}

/// A restarted process restores the snapshot and serves again at the generation
/// the snapshot carries.
#[test]
fn a_restarted_process_restores_its_snapshot() {
    let mut host = Host::default();
    let a = port(1);

    // first process: apply and shut down
    let file = {
        let mut rec = persistent();
        restore(&mut rec, &mut host, missing()).expect("empty snapshot restores");
        reconcile(&mut rec, &mut host, request(11, &[("a", tcp(a, V1))])).unwrap();
        assert_eq!(rec.active_generation(), Some(11));
        let file = read_back(&rec);
        shutdown(&mut rec, &mut host);
        file
    };
    assert!(matches!(file, FileRead::Parsed(_)), "the snapshot was written");
    assert!(host.is_free(Proto::Tcp, a), "the old listener is gone");

    // second process: restore
    let mut host = Host::default();
    let mut rec = persistent();
    let outcome = restore(&mut rec, &mut host, file).expect("snapshot restores");

    assert_eq!(outcome.generation, Some(11));
    assert_eq!(outcome.restored, 1);
    assert!(outcome.failed.is_empty());
    assert!(!outcome.partial);
    assert_eq!(rec.active_generation(), Some(11));

    let c = host.connect(Proto::Tcp, a).unwrap();
    assert_eq!(host.reaches(c).as_deref(), Some(V1));
}

/// Submissions before the restore finished are refused with a retryable
/// not-ready error, and succeed afterwards.
#[test]
fn submissions_before_the_restore_are_not_ready() {
    let mut host = Host::default();
    let a = port(1);

    let mut rec = persistent();
    let err = reconcile(&mut rec, &mut host, request(1, &[("a", tcp(a, V1))]))
        .expect_err("submissions before the restore are refused");
    assert!(matches!(err, ReconcileError::NotReady));
    assert!(err.is_retryable(), "not-ready is retryable");
    assert!(!rec.is_ready());

    restore(&mut rec, &mut host, missing()).expect("restore finishes");
    assert!(rec.is_ready());

    let response = reconcile(&mut rec, &mut host, request(1, &[("a", tcp(a, V1))]));
    assert!(response.is_ok(), "the retry succeeds once ready");
}

/// An endpoint that cannot come back is marked failed while the rest is restored
/// and the process stays alive, with a partial generation.
#[test]
fn a_partial_restore_marks_the_failed_endpoint_only() {
    let mut host = Host::default();
    let (good, blocked) = (port(1), port(2));

    let file = {
        let mut rec = persistent();
        restore(&mut rec, &mut host, missing()).unwrap();
        reconcile(
            &mut rec,
            &mut host,
            request(5, &[("good", tcp(good, V1)), ("blocked", tcp(blocked, V1))]),
        )
        .unwrap();
        let file = read_back(&rec);
        shutdown(&mut rec, &mut host);
        file
    };

    // somebody else took the address while the process was down
    let mut host = Host::default();
    host.foreign.push((Proto::Tcp, blocked));

    let mut rec = persistent();
    let outcome = restore(&mut rec, &mut host, file).expect("a partial restore is not an error");

    assert_eq!(outcome.generation, Some(5));
    assert_eq!(outcome.restored, 1);
    assert_eq!(outcome.failed.len(), 1);
    assert_eq!(outcome.failed[0].0, "blocked");
    assert!(outcome.partial);
    assert!(rec.is_partial(), "the active generation carries the partial mark");
    assert!(rec.is_ready(), "the process serves what it could restore");
    assert!(host.connect(Proto::Tcp, good).is_some());
}

/// The snapshot is replaced atomically, so a leftover temporary file never
/// shadows the last complete one: it has a name of its own.
#[test]
fn a_leftover_temporary_file_does_not_shadow_the_snapshot() {
    let store = SnapshotStore::new(String::from("/run/realm/state.json"));
    let mut endpoints = IdMap::new();
    endpoints.insert(String::from("a"), tcp(port(1), V1));
    let snapshot = Snapshot { generation: 3, partial: false, endpoints };

    let written = SnapshotStore::envelope(snapshot);
    let temp = SnapshotStore::temp_name("state.json", 12, 34);
    assert_eq!(temp, "state.json.12.34.tmp");
    assert!(temp != store.path());

    let loaded = store
        .load(FileRead::Parsed(written))
        .expect("load must not fail because of a leftover")
        .expect("the previous complete snapshot is still there");
    assert_eq!(loaded.generation, 3);
    assert_eq!(loaded.endpoints.len(), 1);
}

/// A corrupt snapshot is reported, never a panic and never a silent wipe.
#[test]
fn a_corrupt_snapshot_is_an_error() {
    let store = SnapshotStore::new(String::from("/run/a \"b\".json"));
    let loaded = store.load::<EndpointConf>(FileRead::Malformed(String::from("expected value at line 1")));
    let error = loaded.err().expect("a corrupt snapshot must be reported");
    assert_eq!(error.kind, ErrorKind::Other);
    assert_eq!(error.message, "failed to parse \"/run/a \\\"b\\\".json\": expected value at line 1");
    for kind in [ErrorKind::PermissionDenied, ErrorKind::IsADirectory, ErrorKind::InvalidData, ErrorKind::Other] {
        let failed = FileRead::Failed(IoError { kind, message: String::from("denied") });
        let error = store.load::<EndpointConf>(failed).err().expect("only a missing file is nothing to restore");
        assert_eq!(error.kind, kind);
        assert_eq!(error.message, "failed to read \"/run/a \\\"b\\\".json\": denied");
    }
    let other = Envelope {
        version: 9,
        snapshot: Snapshot { generation: 1, partial: false, endpoints: IdMap::<EndpointConf>::new() },
    };
    let error = store.load(FileRead::Parsed(other)).err().unwrap();
    assert_eq!(error.kind, ErrorKind::Other);
    assert_eq!(
        error.message,
        "unsupported snapshot version 9 in \"/run/a \\\"b\\\".json\", expected 1"
    );
    assert!(store.load::<EndpointConf>(missing()).unwrap().is_none());
}

/// The snapshot follows the applied desired state, including deletions.
#[test]
fn the_snapshot_tracks_the_applied_state() {
    let mut host = Host::default();
    let mut rec = persistent();
    restore(&mut rec, &mut host, missing()).unwrap();

    reconcile(&mut rec, &mut host, request(1, &[("a", tcp(port(1), V1))])).unwrap();
    let loaded = rec.snapshot().unwrap();
    assert_eq!(loaded.generation, 1);
    assert_eq!(loaded.endpoints.len(), 1);

    reconcile(&mut rec, &mut host, request(2, &[])).unwrap();
    let loaded = rec.snapshot().unwrap();
    assert_eq!(loaded.generation, 2);
    assert!(loaded.endpoints.len() == 0, "a deletion is recorded too");

    shutdown(&mut rec, &mut host);
}

/// Without a state file nothing is persisted, and there is nothing to restore.
#[test]
fn a_process_without_a_state_file_persists_nothing() {
    let mut host = Host::default();
    let mut rec: Reconciler<EndpointConf> = Reconciler::new();
    assert!(rec.store().is_none());
    let outcome = restore(&mut rec, &mut host, missing()).unwrap();
    assert_eq!(outcome.generation, None);
    reconcile(&mut rec, &mut host, request(1, &[("a", tcp(port(1), V1))])).unwrap();
    assert!(rec.snapshot().is_none());
}

/// The state is kept in one place, whatever the reconciler goes through.
#[test]
fn the_snapshot_stays_where_it_is() {
    let mut host = Host::default();
    let mut rec = persistent();
    restore(&mut rec, &mut host, missing()).unwrap();
    reconcile(&mut rec, &mut host, request(2, &[("a", both(port(1), V1))])).unwrap();
    reconcile(&mut rec, &mut host, request(1, &[])).unwrap_err();
    rec.set_ready(false);
    status(&mut rec, &host);
    shutdown(&mut rec, &mut host);
    assert_eq!(rec.store().unwrap().path(), "/run/realm/state.json");
}

// ------------------------------------------------------------------ startup --

#[test]
fn the_agents_first_equivalent_submission_is_a_no_op() {
    let mut host = Host::default();
    let mut global = NetConf::default();
    global.use_udp = Some(true);

    let rule = tcp(port(5), V1);
    let d = static_endpoint(&rule, &global, &lookups(&rule)).unwrap();
    assert_eq!(d.id, "tcpudp:127.0.0.1:5");

    let mut rec = Reconciler::new();
    let request = match starting_point(&mut rec, Ok(RestoreOutcome::default()), vec![d]) {
        Startup::Static(request) => request,
        Startup::Restored(_) => panic!("nothing was restored"),
    };
    assert_eq!(request.generation, 0);
    let response = reconcile(&mut rec, &mut host, request).unwrap();
    assert!(response.results.iter().all(|r| r.action == SlotAction::Created));

    // the same rule, as an agent writes it down
    let theirs = DesiredEndpoint { id: String::from("tcpudp:127.0.0.1:5"), spec: both(port(5), V1) };
    let submitted = api::submission(1, vec![theirs], &global);
    let response = reconcile(&mut rec, &mut host, submitted).unwrap();
    assert_eq!(response.results.len(), 2);
    assert!(response.results.iter().all(|r| r.action == SlotAction::Unchanged));
}

#[test]
fn an_unreadable_state_file_falls_back_to_the_static_configuration() {
    let mut host = Host::default();
    let mut rec = persistent();
    let failed = restore(&mut rec, &mut host, FileRead::Malformed(String::from("bad")));
    assert!(failed.is_err());
    assert!(!rec.is_ready());
    let rule = tcp(port(5), V1);
    let d = static_endpoint(&rule, &NetConf::default(), &lookups(&rule)).unwrap();
    let start = starting_point(&mut rec, failed, vec![d]);
    assert!(matches!(start, Startup::Static(_)));
    assert!(rec.is_ready());
}

#[test]
fn a_restored_state_comes_before_the_static_configuration() {
    let mut host = Host::default();
    let mut rec = persistent();
    restore(&mut rec, &mut host, missing()).unwrap();
    reconcile(&mut rec, &mut host, request(4, &[("a", tcp(port(1), V1))])).unwrap();
    let file = read_back(&rec);

    let mut host = Host::default();
    let mut rec = persistent();
    let outcome = restore(&mut rec, &mut host, file);
    match starting_point(&mut rec, outcome, Vec::new()) {
        Startup::Restored(o) => assert_eq!(o.generation, Some(4)),
        Startup::Static(_) => panic!("the snapshot is newer"),
    }
}

#[test]
fn a_static_rule_that_cannot_be_built_is_reported() {
    let rule = EndpointConf::plain(String::from("nowhere"), String::from(V1));
    assert_eq!(
        static_endpoint(&rule, &NetConf::default(), &lookups(&rule)).err().unwrap(),
        "invalid `listen` = `nowhere`: cannot be resolved: invalid socket address"
    );
}

// ------------------------------------------------------------ control plane --

/// Submit a desired state the way the control plane does.
fn put(
    rec: &mut Reconciler<EndpointConf>,
    host: &mut Host,
    generation: u64,
    endpoints: &[(&str, EndpointConf)],
) -> Result<api::Report, api::Failure> {
    assert_eq!(api::route("PUT", "/v1/desired-state").unwrap(), Route::Reconcile);
    let desired = request(generation, endpoints).endpoints;
    match reconcile(rec, host, api::submission(generation, desired, &NetConf::default())) {
        Ok(response) => Ok(api::report(&response)),
        Err(e) => Err(api::reconcile_error(&e)),
    }
}

/// A caller learns which contract version is spoken.
#[test]
fn version_reports_the_contract_and_capabilities() {
    assert_eq!(api::route("GET", "/v1/version").unwrap(), Route::Version);
    assert_eq!(api::SCHEMA_VERSION, 1);
    assert_eq!(
        api::capabilities(),
        vec![
            "desired-state-reconcile",
            "stable-endpoint-ids",
            "per-protocol-results",
            "connection-preserving-tcp-update",
            "udp-association-rebuild",
            "per-endpoint-drain-timeout",
            "draining-cohort-status",
            "snapshot-restore",
        ]
    );
    // the same document answers on /v1/capabilities
    assert_eq!(api::route("GET", "/v1/capabilities").unwrap(), Route::Version);
}

/// A desired state really forwards, and the status shows live connections and
/// the draining cohort a replacement leaves behind.
#[test]
fn a_desired_state_applies_and_shows_up_in_the_status() {
    let mut host = Host::default();
    let mut rec = Reconciler::new();
    let laddr = port(1);

    let body = put(&mut rec, &mut host, 1, &[("rule-1", tcp(laddr, V1))]).unwrap();
    assert_eq!(body.state, "applied");
    assert_eq!(body.generation, 1);
    assert_eq!(body.results[0].id, "rule-1");
    assert_eq!(body.results[0].protocol, "tcp");
    assert_eq!(body.results[0].action, "created");

    // it forwards
    let established = host.connect(Proto::Tcp, laddr).unwrap();
    assert_eq!(host.reaches(established).as_deref(), Some(V1));

    let g = generation_status(rec.active_generation(), rec.is_partial(), rec.is_ready());
    assert_eq!(g.active_generation, Some(1));
    assert_eq!(g.generation_state, Some("applied"));
    assert!(g.ready);
    let report = endpoint_status(&status(&mut rec, &host)[0]);
    assert_eq!(report.slots[0].state, "running");
    assert_eq!(report.slots[0].listen.as_deref(), Some("127.0.0.1:1"));
    assert_eq!(report.slots[0].connections, 1);
    assert!(report.slots[0].error.is_none());

    // an update leaves the established connection on the old generation, and the
    // status shows that cohort
    let body = put(&mut rec, &mut host, 2, &[("rule-1", tcp(laddr, V2))]).unwrap();
    assert_eq!(body.results[0].action, "updated");

    let report = endpoint_status(&status(&mut rec, &host)[0]);
    assert_eq!(report.slots[0].generation, 2);
    let draining = &report.slots[0].draining;
    assert_eq!(draining.len(), 1, "the superseded cohort is visible");
    assert_eq!(draining[0].generation, 1);
    assert_eq!(draining[0].connections, 1);
    assert_eq!(draining[0].age, Duration::from_millis(1500));
    assert_eq!(draining[0].draining_for, Some(Duration::from_millis(500)));

    // the old connection still talks to the old remote
    assert_eq!(host.reaches(established).as_deref(), Some(V1));
}

/// A stale generation is a terminal conflict that names the active generation.
#[test]
fn a_stale_generation_is_a_terminal_conflict() {
    let mut host = Host::default();
    let mut rec = Reconciler::new();
    put(&mut rec, &mut host, 9, &[("rule-1", tcp(port(1), V1))]).unwrap();

    let error = put(&mut rec, &mut host, 8, &[("rule-1", tcp(port(1), V1))]).unwrap_err();
    assert_eq!(error.code, 409);
    assert_eq!(error.kind, "stale-generation");
    assert!(!error.retryable);
    assert_eq!(error.active_generation, Some(9));
    assert_eq!(error.message, "stale generation, active generation is 9");
}

/// While the snapshot is being restored, the control plane answers not-ready and
/// marks it retryable.
#[test]
fn submissions_before_readiness_are_retryable() {
    let mut host = Host::default();
    let mut rec = Reconciler::not_ready();
    let error = put(&mut rec, &mut host, 1, &[("rule-1", tcp(port(1), V1))]).unwrap_err();
    assert_eq!(error.code, 503);
    assert_eq!(error.kind, "not-ready");
    assert!(error.retryable);
    assert_eq!(error.active_generation, None);

    let g = generation_status(rec.active_generation(), rec.is_partial(), rec.is_ready());
    assert_eq!(g.code, 503);
    assert!(!g.ready);
    assert_eq!(g.generation_state, None);
}

/// An invalid endpoint is reported per endpoint while the rest of the generation
/// applies.
#[test]
fn an_invalid_endpoint_is_reported_per_endpoint() {
    let mut host = Host::default();
    let mut rec = Reconciler::new();
    let bad = EndpointConf::plain(String::from("not an address"), String::from(V1));
    let body = put(&mut rec, &mut host, 1, &[("good", tcp(port(1), V1)), ("bad", bad)])
        .expect("a partial failure is still a processed request");
    assert_eq!(body.state, "partially-applied");

    let bad = body.results.iter().find(|r| r.id == "bad").unwrap();
    assert_eq!(bad.action, "failed");
    assert!(bad.error.as_deref().unwrap().contains("listen"));

    let good = body.results.iter().find(|r| r.id == "good").unwrap();
    assert_eq!(good.action, "created");
}

/// A caller must be able to tell a failure worth retrying from one that will fail
/// again unchanged.
#[test]
fn endpoint_failures_say_whether_a_retry_can_help() {
    let mut host = Host::default();
    let mut rec = Reconciler::new();

    // somebody else owns this port: a bind race, which can resolve on its own
    host.foreign.push((Proto::Tcp, port(1)));
    let nonsense = EndpointConf::plain(String::from("not an address"), String::from(V1));
    let body = put(&mut rec, &mut host, 1, &[("occupied", tcp(port(1), V1)), ("nonsense", nonsense)]).unwrap();

    let occupied = body.results.iter().find(|r| r.id == "occupied").unwrap();
    assert_eq!(occupied.action, "failed");
    assert_eq!(occupied.retryable, Some(true), "a lost bind race may resolve itself");

    let nonsense = body.results.iter().find(|r| r.id == "nonsense").unwrap();
    assert_eq!(nonsense.action, "failed");
    assert_eq!(
        nonsense.retryable,
        Some(false),
        "an unparseable endpoint will not parse on a retry"
    );

    // a successful result carries no retryable field at all
    let body = put(&mut rec, &mut host, 2, &[("fine", tcp(port(2), V1))]).unwrap();
    assert_eq!(body.results.iter().find(|r| r.id == "fine").unwrap().action, "created");
    assert!(body.results.iter().find(|r| r.id == "fine").unwrap().retryable.is_none());
}

/// The control plane refuses to allocate without bound.
#[test]
fn an_oversized_request_is_refused_as_terminal() {
    let error = api::body_failure("length limit exceeded");
    assert_eq!(error.code, 413);
    assert_eq!(error.kind, "request-too-large");
    assert!(!error.retryable);
    assert_eq!(error.message, "request body exceeds 8388608 bytes: length limit exceeded");
}

/// A malformed body is a terminal client error, and an unknown route is a 404.
#[test]
fn malformed_requests_and_unknown_routes_are_terminal() {
    let error = api::parse_failure("key must be a string at line 1 column 3");
    assert_eq!(error.code, 400);
    assert_eq!(error.kind, "malformed-request");
    assert!(!error.retryable);

    let error = api::route("GET", "/v1/nope").unwrap_err();
    assert_eq!(error.code, 404);
    assert_eq!(error.kind, "unknown-route");
    assert_eq!(error.message, "no route for GET /v1/nope");

    // a known path under a known method that it does not take has no route either
    assert_eq!(api::route("GET", "/v1/desired-state").unwrap_err().code, 404);
    assert_eq!(api::route("POST", "/v1/desired-state").unwrap(), Route::Reconcile);
    assert_eq!(api::route("GET", "/v1/status").unwrap(), Route::Status);
    assert_eq!(api::route("GET", "/v1/readiness").unwrap(), Route::Readiness);

    // whatever the method, a path that does not exist is an unknown route
    for method in ["DELETE", "PATCH", "OPTIONS", "PUT", ""] {
        let error = api::route(method, "/v1/nope").unwrap_err();
        assert_eq!((error.code, error.kind, error.retryable), (404, "unknown-route", false));
        assert_eq!(error.message, format!("no route for {} /v1/nope", method));
    }

    let error = api::route("DELETE", "/v1/status").unwrap_err();
    assert_eq!(error.code, 405);
    assert_eq!(error.kind, "method-not-allowed");
    assert_eq!(error.message, "DELETE is not allowed on /v1/status");
}

/// An endpoint removed from the desired state releases its port.
#[test]
fn removing_an_endpoint_releases_its_port() {
    let mut host = Host::default();
    let mut rec = Reconciler::new();
    put(&mut rec, &mut host, 1, &[("rule-1", tcp(port(1), V1))]).unwrap();
    let body = put(&mut rec, &mut host, 2, &[]).unwrap();
    assert_eq!(body.results[0].action, "deleted");
    assert!(host.is_free(Proto::Tcp, port(1)), "the port was released");
}

/// A failed slot reports why.
#[test]
fn a_failed_slot_reports_its_error() {
    let mut host = Host::default();
    let mut rec = Reconciler::new();
    host.foreign.push((Proto::Tcp, port(1)));
    put(&mut rec, &mut host, 1, &[("a", tcp(port(1), V1))]).unwrap();
    let report = endpoint_status(&status(&mut rec, &host)[0]);
    assert_eq!(report.slots[0].state, "failed");
    assert_eq!(
        report.slots[0].error.as_deref(),
        Some("failed to bind 127.0.0.1:1: Address already in use (os error 98)")
    );
    assert!(report.slots[0].listen.is_none());
    let g = generation_status(rec.active_generation(), rec.is_partial(), rec.is_ready());
    assert_eq!(g.generation_state, Some("partially-applied"));
    assert_eq!(g.code, 200);
}
