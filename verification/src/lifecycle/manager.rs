//! Endpoint state machine.
//!
//! One state machine per `(id, protocol)` slot, the smallest unit that can
//! succeed or fail on its own. The manager decides; whoever drives it runs the
//! serving tasks. An operation hands out [`Action`]s to perform in order, and
//! pauses wherever it has to know whether a listener could be started.
//!
//! - an update keeps established connections (drains indefinitely by default),
//! - a delete releases the listener at once and force-closes what is left when
//!   the drain deadline expires,
//! - a listener is stopped, and its stop waited for, before anything rebinds
//!   its address.

use vstd::prelude::*;
use vstd::string::*;

use crate::endpoint::{Endpoint, EndpointView};
use crate::idmap::IdMap;
use crate::lifecycle::types;
use crate::lifecycle::types::{
    DrainPolicy, DrainingStatus, EndpointId, EndpointSpec, EndpointSpecView, EndpointStatus, EndpointStatusView,
    Generation, Proto, SlotAction, SlotOutcome, SlotOutcomeView, SlotState, SlotStateView, SlotStatus,
    SlotStatusView, TaskId,
};
use crate::net;
use crate::net::SocketAddr;
use crate::time::Duration;

verus! {

// ------------------------------------------------------------------ state --

/// A running data plane of one slot.
#[derive(Debug, Clone, Copy, PartialEq, Eq, Structural)]
pub struct Active {
    pub generation: Generation,
    /// the address the listener is bound to
    pub laddr: SocketAddr,
    pub task: TaskId,
}

/// A superseded generation whose connections are still finishing.
#[derive(Debug, Clone, Copy, PartialEq, Eq, Structural)]
pub struct Draining {
    pub generation: Generation,
    pub task: TaskId,
}

/// One `(id, protocol)` slot.
#[derive(Debug)]
pub struct Slot {
    pub state: SlotState,
    /// generation of whatever is actually serving, not of the last attempt
    pub generation: Generation,
    pub endpoint: Endpoint,
    pub material: Option<u64>,
    /// drain deadlines the endpoint was brought up with
    pub drain: DrainPolicy,
    pub active: Option<Active>,
    pub draining: Vec<Draining>,
}

#[verifier::ext_equal]
pub struct SlotView {
    pub state: SlotStateView,
    pub generation: Generation,
    pub endpoint: EndpointView,
    pub material: Option<u64>,
    pub drain: DrainPolicy,
    pub active: Option<Active>,
    pub draining: Seq<Draining>,
}

impl View for Slot {
    type V = SlotView;

    open spec fn view(&self) -> SlotView {
        SlotView {
            state: self.state@,
            generation: self.generation,
            endpoint: self.endpoint@,
            material: self.material,
            drain: self.drain,
            active: self.active,
            draining: self.draining@,
        }
    }
}

pub open spec fn opt_slot(s: Option<Slot>) -> Option<SlotView> {
    match s {
        Some(s) => Some(s@),
        None => None,
    }
}

/// The slots of one id.
#[derive(Debug)]
pub struct Entry {
    pub tcp: Option<Slot>,
    pub udp: Option<Slot>,
    pub drain: DrainPolicy,
}

#[verifier::ext_equal]
pub struct EntryView {
    pub tcp: Option<SlotView>,
    pub udp: Option<SlotView>,
    pub drain: DrainPolicy,
}

impl View for Entry {
    type V = EntryView;

    open spec fn view(&self) -> EntryView {
        EntryView { tcp: opt_slot(self.tcp), udp: opt_slot(self.udp), drain: self.drain }
    }
}

impl EntryView {
    pub open spec fn slot(self, proto: Proto) -> Option<SlotView> {
        match proto {
            Proto::Tcp => self.tcp,
            Proto::Udp => self.udp,
        }
    }

    pub open spec fn with(self, proto: Proto, slot: Option<SlotView>) -> EntryView {
        match proto {
            Proto::Tcp => EntryView { tcp: slot, ..self },
            Proto::Udp => EntryView { udp: slot, ..self },
        }
    }
}

/// Owns every endpoint's state machine.
pub struct EndpointManager {
    entries: IdMap<Entry>,
    policy: DrainPolicy,
}

#[verifier::ext_equal]
pub struct ManagerView {
    pub entries: Map<Seq<char>, EntryView>,
    pub policy: DrainPolicy,
}

impl View for EndpointManager {
    type V = ManagerView;

    closed spec fn view(&self) -> ManagerView {
        ManagerView { entries: self.entries@.map_values(|e: Entry| e@), policy: self.policy }
    }
}

impl ManagerView {
    /// The slot of `(id, proto)`.
    pub open spec fn slot(self, id: Seq<char>, proto: Proto) -> Option<SlotView> {
        if self.entries.dom().contains(id) {
            self.entries[id].slot(proto)
        } else {
            None
        }
    }

    /// The state with one slot replaced; ids that are not known stay unknown.
    pub open spec fn with_slot(self, id: Seq<char>, proto: Proto, slot: Option<SlotView>) -> ManagerView {
        if self.entries.dom().contains(id) {
            ManagerView { entries: self.entries.insert(id, self.entries[id].with(proto, slot)), ..self }
        } else {
            self
        }
    }

    /// What is running in a slot.
    pub open spec fn active(self, id: Seq<char>, proto: Proto) -> Option<Active> {
        match self.slot(id, proto) {
            Some(s) => s.active,
            None => None,
        }
    }

    /// The endpoint being served in a slot.
    pub open spec fn serving(self, id: Seq<char>, proto: Proto) -> Option<EndpointView> {
        match self.slot(id, proto) {
            Some(s) => if s.active is Some {
                Some(s.endpoint)
            } else {
                None
            },
            None => None,
        }
    }
}

// ---------------------------------------------------------------- actions --

/// Something to do that cannot fail.
#[derive(Debug, Clone, Copy, PartialEq, Eq, Structural)]
pub enum Action {
    /// stop accepting, and wait until the listener socket is released
    Stop { task: TaskId },
    /// let the connections of a stopped task finish, and force-close those left
    /// at the deadline; without one, wait for as long as they take
    Drain { task: TaskId, generation: Generation, deadline: Option<Duration> },
}

/// A listener that was started.
#[derive(Debug, Clone, Copy, PartialEq, Eq, Structural)]
pub struct Bound {
    pub laddr: SocketAddr,
    pub task: TaskId,
}

/// A listener to be started.
#[derive(Debug)]
pub struct StartRequest {
    pub proto: Proto,
    pub endpoint: Endpoint,
    pub generation: Generation,
}

pub struct StartRequestView {
    pub proto: Proto,
    pub endpoint: EndpointView,
    pub generation: Generation,
}

impl View for StartRequest {
    type V = StartRequestView;

    open spec fn view(&self) -> StartRequestView {
        StartRequestView { proto: self.proto, endpoint: self.endpoint@, generation: self.generation }
    }
}

/// How a slot gets to its new endpoint.
#[derive(Debug, Clone, Copy, PartialEq, Eq, Structural)]
pub enum Route {
    /// nothing is serving: a plain start
    Fresh,
    /// the address is occupied by the slot itself, and was released for the
    /// new listener
    Rebind { former: Active },
    /// the new address is brought up before the old one is given up
    Move { former: Active },
}

/// What an operation is waiting for.
#[derive(Debug)]
pub enum Stage {
    /// the listener of the new endpoint
    Starting { proto: Proto, route: Route },
    /// the listener of the endpoint that was serving, after the new one failed
    Restarting { proto: Proto, former: Active, endpoint: Endpoint, error: String },
}

pub enum StageView {
    Starting { proto: Proto, route: Route },
    Restarting { proto: Proto, former: Active, endpoint: EndpointView, error: Seq<char> },
}

impl View for Stage {
    type V = StageView;

    open spec fn view(&self) -> StageView {
        match self {
            Stage::Starting { proto, route } => StageView::Starting { proto: *proto, route: *route },
            Stage::Restarting { proto, former, endpoint, error } => StageView::Restarting {
                proto: *proto,
                former: *former,
                endpoint: endpoint@,
                error: error@,
            },
        }
    }
}

/// Bringing one endpoint to a spec, while it is under way.
#[derive(Debug)]
pub struct ApplyOp {
    pub id: EndpointId,
    pub generation: Generation,
    pub spec: EndpointSpec,
    pub drain: DrainPolicy,
    pub stage: Stage,
    pub outcomes: Vec<SlotOutcome>,
}

#[verifier::ext_equal]
pub struct ApplyOpView {
    pub id: Seq<char>,
    pub generation: Generation,
    pub spec: EndpointSpecView,
    pub drain: DrainPolicy,
    pub stage: StageView,
    pub outcomes: Seq<SlotOutcomeView>,
}

impl View for ApplyOp {
    type V = ApplyOpView;

    open spec fn view(&self) -> ApplyOpView {
        ApplyOpView {
            id: self.id@,
            generation: self.generation,
            spec: self.spec@,
            drain: self.drain,
            stage: self.stage@,
            outcomes: types::outcome_views(self.outcomes@),
        }
    }
}

/// Where an operation stands after a step.
#[derive(Debug)]
pub enum Next {
    /// a listener has to be started before it can go on
    More(ApplyOp),
    /// finished, with one outcome per slot it touched
    Done(Vec<SlotOutcome>),
}

pub enum NextView {
    More(ApplyOpView),
    Done(Seq<SlotOutcomeView>),
}

impl View for Next {
    type V = NextView;

    open spec fn view(&self) -> NextView {
        match self {
            Next::More(op) => NextView::More(op@),
            Next::Done(outcomes) => NextView::Done(types::outcome_views(outcomes@)),
        }
    }
}

// ------------------------------------------------------- what a step does --

/// The state of a slot once it is known which tasks have ended.
pub open spec fn refreshed_slot(s: SlotView, finished: Seq<TaskId>) -> SlotView {
    let exited = s.active is Some && finished.contains(s.active->0.task);
    SlotView {
        state: if exited {
            SlotStateView::Failed("serving task exited unexpectedly"@)
        } else {
            s.state
        },
        active: if exited {
            None
        } else {
            s.active
        },
        draining: s.draining.filter(|d: Draining| !finished.contains(d.task)),
        ..s
    }
}

pub open spec fn refreshed_opt(s: Option<SlotView>, finished: Seq<TaskId>) -> Option<SlotView> {
    match s {
        Some(s) => Some(refreshed_slot(s, finished)),
        None => None,
    }
}

/// The state once it is known which tasks have ended: a serving task that
/// ended on its own means its slot is not running, and drained cohorts are
/// forgotten.
pub open spec fn refreshed(m: ManagerView, finished: Seq<TaskId>) -> ManagerView {
    ManagerView {
        entries: m.entries.map_values(
            |e: EntryView|
                EntryView { tcp: refreshed_opt(e.tcp, finished), udp: refreshed_opt(e.udp, finished), drain: e.drain },
        ),
        ..m
    }
}

/// Why an endpoint asking for no protocol is refused.
pub open spec fn no_protocol_error() -> Seq<char> {
    "endpoint enables neither tcp nor udp"@
}

/// Why a listener could not be started.
pub open spec fn bind_error(laddr: SocketAddr, reason: Seq<char>) -> Seq<char> {
    "failed to bind "@ + net::addr_text(laddr) + ": "@ + reason
}

/// Give up what a slot runs: stop it, then drain it.
pub open spec fn release_actions(active: Option<Active>, deadline: Option<Duration>) -> Seq<Action> {
    match active {
        Some(a) => seq![
            Action::Stop { task: a.task },
            Action::Drain { task: a.task, generation: a.generation, deadline },
        ],
        None => Seq::empty(),
    }
}

/// A slot about to be brought to a spec.
pub struct Turn {
    pub manager: ManagerView,
    pub op: ApplyOpView,
    pub actions: Seq<Action>,
    /// whether a listener has to be started first
    pub waiting: bool,
}

/// Whether a slot already serves exactly what a spec asks for: the same rule, with
/// the same material and under the same drain deadlines.
pub open spec fn serves(s: SlotView, spec: EndpointSpecView, drain: DrainPolicy) -> bool {
    s.active is Some && s.endpoint == spec.endpoint && s.material == spec.material && s.drain == drain
}

/// The drain deadlines of a spec: its own, or else those of the manager.
pub open spec fn drain_for(m: ManagerView, spec: EndpointSpecView) -> DrainPolicy {
    match spec.drain {
        Some(d) => d,
        None => m.policy,
    }
}

/// How a slot gets to a spec it does not serve yet.
pub open spec fn route_to(s: Option<SlotView>, laddr: SocketAddr) -> Route {
    match s {
        Some(s) => match s.active {
            Some(a) => if a.laddr.ip == laddr.ip && a.laddr.port == laddr.port {
                Route::Rebind { former: a }
            } else {
                Route::Move { former: a }
            },
            None => Route::Fresh,
        },
        None => Route::Fresh,
    }
}

/// Begin with one protocol of an endpoint.
///
/// - the spec asks for it and the slot serves it already: nothing happens,
/// - the spec asks for it otherwise: a listener is started, after stopping the
///   slot's own where it occupies the address,
/// - the spec does not ask for it: the slot, if there is one, goes as in a
///   delete.
pub open spec fn enter_slot(m: ManagerView, op: ApplyOpView, proto: Proto) -> Turn {
    let slot = m.slot(op.id, proto);
    if op.spec.wants(proto) {
        if slot is Some && serves(slot->0, op.spec, op.drain) {
            Turn {
                manager: m.with_slot(
                    op.id,
                    proto,
                    Some(SlotView { state: SlotStateView::Running, ..slot->0 }),
                ),
                op: ApplyOpView {
                    outcomes: op.outcomes.push(
                        types::ok_outcome(proto, SlotAction::Unchanged),
                    ),
                    ..op
                },
                actions: Seq::empty(),
                waiting: false,
            }
        } else {
            let route = route_to(slot, op.spec.endpoint.laddr);
            let waiting_op = ApplyOpView { stage: StageView::Starting { proto, route }, ..op };
            match route {
                Route::Rebind { former } => Turn {
                    manager: m.with_slot(op.id, proto, Some(SlotView { active: None, ..slot->0 })),
                    op: waiting_op,
                    actions: seq![Action::Stop { task: former.task }],
                    waiting: true,
                },
                _ => Turn { manager: m, op: waiting_op, actions: Seq::empty(), waiting: true },
            }
        }
    } else {
        match slot {
            Some(s) => Turn {
                manager: m.with_slot(op.id, proto, None),
                op: ApplyOpView {
                    outcomes: op.outcomes.push(types::ok_outcome(proto, SlotAction::Deleted)),
                    ..op
                },
                actions: release_actions(s.active, op.drain.on_delete),
                waiting: false,
            },
            None => Turn { manager: m, op, actions: Seq::empty(), waiting: false },
        }
    }
}

/// A slot that holds nothing anymore.
pub open spec fn spent(s: Option<SlotView>) -> bool {
    match s {
        Some(s) => s.active is None && s.draining.len() == 0
            && s.state is Stopped,
        None => true,
    }
}

/// Drop slots that hold nothing anymore, and the id if it holds no slot.
pub open spec fn pruned(m: ManagerView, id: Seq<char>) -> ManagerView {
    if m.entries.dom().contains(id) {
        let e = m.entries[id];
        let kept = EntryView {
            tcp: if spent(e.tcp) {
                None
            } else {
                e.tcp
            },
            udp: if spent(e.udp) {
                None
            } else {
                e.udp
            },
            drain: e.drain,
        };
        if kept.tcp is None && kept.udp is None {
            ManagerView { entries: m.entries.remove(id), ..m }
        } else {
            ManagerView { entries: m.entries.insert(id, kept), ..m }
        }
    } else {
        m
    }
}

/// State, actions and standing after a step.
pub struct Progress {
    pub manager: ManagerView,
    pub actions: Seq<Action>,
    pub next: NextView,
}

impl Progress {
    /// The step with other actions before its own.
    pub open spec fn after(self, actions: Seq<Action>) -> Progress {
        Progress { actions: actions + self.actions, ..self }
    }
}

/// Both protocols are through.
pub open spec fn finish(m: ManagerView, op: ApplyOpView) -> Progress {
    Progress { manager: pruned(m, op.id), actions: Seq::empty(), next: NextView::Done(op.outcomes) }
}

/// Go on with udp.
pub open spec fn run_udp(m: ManagerView, op: ApplyOpView) -> Progress {
    let t = enter_slot(m, op, Proto::Udp);
    if t.waiting {
        Progress { manager: t.manager, actions: t.actions, next: NextView::More(t.op) }
    } else {
        finish(t.manager, t.op).after(t.actions)
    }
}

/// Go on with tcp, then udp.
pub open spec fn run_tcp(m: ManagerView, op: ApplyOpView) -> Progress {
    let t = enter_slot(m, op, Proto::Tcp);
    if t.waiting {
        Progress { manager: t.manager, actions: t.actions, next: NextView::More(t.op) }
    } else {
        run_udp(t.manager, t.op).after(t.actions)
    }
}

/// Go on after one protocol is through.
pub open spec fn run_after(m: ManagerView, op: ApplyOpView, proto: Proto) -> Progress {
    match proto {
        Proto::Tcp => run_udp(m, op),
        Proto::Udp => finish(m, op),
    }
}

/// The entry of an id under a new drain policy, made if it is not there.
pub open spec fn enrolled(m: ManagerView, id: Seq<char>, drain: DrainPolicy) -> ManagerView {
    let entry = if m.entries.dom().contains(id) {
        EntryView { drain, ..m.entries[id] }
    } else {
        EntryView { tcp: None, udp: None, drain }
    };
    ManagerView { entries: m.entries.insert(id, entry), ..m }
}

/// Begin to bring `id` to `spec` at `generation`.
pub open spec fn apply_begun(
    m: ManagerView,
    id: Seq<char>,
    generation: Generation,
    spec: EndpointSpecView,
    finished: Seq<TaskId>,
) -> Progress {
    let m = refreshed(m, finished);
    if !spec.tcp && !spec.udp {
        Progress {
            manager: m,
            actions: Seq::empty(),
            next: NextView::Done(
                seq![types::rejected_outcome(Proto::Tcp, no_protocol_error())],
            ),
        }
    } else {
        let drain = drain_for(m, spec);
        let op = ApplyOpView {
            id,
            generation,
            spec,
            drain,
            stage: StageView::Starting { proto: Proto::Tcp, route: Route::Fresh },
            outcomes: Seq::empty(),
        };
        run_tcp(enrolled(m, id, drain), op)
    }
}

/// The slot of the new endpoint, once its listener is up.
pub open spec fn running_slot(
    former: Option<SlotView>,
    op: ApplyOpView,
    bound: Bound,
    drained: Seq<Draining>,
) -> SlotView {
    SlotView {
        state: SlotStateView::Running,
        generation: op.generation,
        endpoint: op.spec.endpoint,
        material: op.spec.material,
        drain: op.drain,
        active: Some(Active { generation: op.generation, laddr: bound.laddr, task: bound.task }),
        draining: (match former {
            Some(s) => s.draining,
            None => Seq::empty(),
        }) + drained,
    }
}

/// The drain of a superseded listener.
pub open spec fn superseded(former: Active) -> Seq<Draining> {
    seq![Draining { generation: former.generation, task: former.task }]
}

/// A slot is through: record it, and go on.
pub open spec fn settle(
    m: ManagerView,
    op: ApplyOpView,
    proto: Proto,
    slot: SlotView,
    outcome: SlotOutcomeView,
    actions: Seq<Action>,
) -> Progress {
    run_after(
        m.with_slot(op.id, proto, Some(slot)),
        ApplyOpView { outcomes: op.outcomes.push(outcome), ..op },
        proto,
    ).after(actions)
}

/// Go on, knowing whether the listener could be started.
pub open spec fn apply_resumed(m: ManagerView, op: ApplyOpView, started: Result<Bound, Seq<char>>) -> Progress {
    match op.stage {
        StageView::Starting { proto, route } => {
            let slot = m.slot(op.id, proto);
            match (route, started) {
                (Route::Fresh, Ok(bound)) => settle(
                    m,
                    op,
                    proto,
                    running_slot(slot, op, bound, Seq::empty()),
                    types::ok_outcome(proto, SlotAction::Created),
                    Seq::empty(),
                ),
                (Route::Fresh, Err(reason)) => {
                    let error = bind_error(op.spec.endpoint.laddr, reason);
                    settle(
                        m,
                        op,
                        proto,
                        SlotView {
                            state: SlotStateView::Failed(error),
                            generation: op.generation,
                            endpoint: op.spec.endpoint,
                            material: op.spec.material,
                            drain: op.drain,
                            active: None,
                            draining: match slot {
                                Some(s) => s.draining,
                                None => Seq::empty(),
                            },
                        },
                        types::failed_outcome(proto, error),
                        Seq::empty(),
                    )
                },
                (Route::Rebind { former }, Ok(bound)) => settle(
                    m,
                    op,
                    proto,
                    running_slot(slot, op, bound, superseded(former)),
                    types::ok_outcome(proto, SlotAction::Updated),
                    seq![
                        Action::Drain {
                            task: former.task,
                            generation: former.generation,
                            deadline: types::replaced_deadline(op.drain, proto),
                        },
                    ],
                ),
                (Route::Rebind { former }, Err(reason)) => Progress {
                    manager: m,
                    actions: Seq::empty(),
                    next: NextView::More(
                        ApplyOpView {
                            stage: StageView::Restarting {
                                proto,
                                former,
                                endpoint: match slot {
                                    Some(s) => s.endpoint,
                                    None => op.spec.endpoint,
                                },
                                error: bind_error(op.spec.endpoint.laddr, reason),
                            },
                            ..op
                        },
                    ),
                },
                (Route::Move { former }, Ok(bound)) => settle(
                    m,
                    op,
                    proto,
                    running_slot(slot, op, bound, superseded(former)),
                    types::ok_outcome(proto, SlotAction::Updated),
                    release_actions(Some(former), types::replaced_deadline(op.drain, proto)),
                ),
                (Route::Move { former }, Err(reason)) => {
                    let error = bind_error(op.spec.endpoint.laddr, reason);
                    let outcome = types::failed_outcome(proto, error);
                    match slot {
                        Some(s) => settle(
                            m,
                            op,
                            proto,
                            SlotView { state: SlotStateView::Failed(error), ..s },
                            outcome,
                            Seq::empty(),
                        ),
                        None => run_after(
                            m,
                            ApplyOpView { outcomes: op.outcomes.push(outcome), ..op },
                            proto,
                        ),
                    }
                },
            }
        },
        StageView::Restarting { proto, former, endpoint, error } => {
            let outcome = types::failed_outcome(proto, error);
            let actions = seq![
                Action::Drain {
                    task: former.task,
                    generation: former.generation,
                    deadline: types::replaced_deadline(op.drain, proto),
                },
            ];
            match m.slot(op.id, proto) {
                Some(s) => settle(
                    m,
                    op,
                    proto,
                    SlotView {
                        state: SlotStateView::Failed(error),
                        active: match started {
                            Ok(bound) => Some(
                                Active { generation: former.generation, laddr: bound.laddr, task: bound.task },
                            ),
                            Err(_) => None,
                        },
                        draining: s.draining + superseded(former),
                        ..s
                    },
                    outcome,
                    actions,
                ),
                None => run_after(m, ApplyOpView { outcomes: op.outcomes.push(outcome), ..op }, proto).after(actions),
            }
        },
    }
}

/// The listener an operation waits for.
pub open spec fn awaited(op: ApplyOpView) -> StartRequestView {
    match op.stage {
        StageView::Starting { proto, .. } => StartRequestView {
            proto,
            endpoint: op.spec.endpoint,
            generation: op.generation,
        },
        StageView::Restarting { proto, former, endpoint, .. } => StartRequestView {
            proto,
            endpoint,
            generation: former.generation,
        },
    }
}

// ------------------------------------------------------------- operations --

fn contains_task(tasks: &Vec<TaskId>, task: TaskId) -> (r: bool)
    ensures
        r == tasks@.contains(task),
{
    let mut i: usize = 0;
    while i < tasks.len()
        invariant
            i <= tasks@.len(),
            forall|j: int| 0 <= j < i ==> tasks@[j] != task,
        decreases tasks@.len() - i,
    {
        if tasks[i] == task {
            return true;
        }
        i = i + 1;
    }
    false
}

impl Slot {
    fn refresh(&mut self, finished: &Vec<TaskId>)
        ensures
            final(self)@ == refreshed_slot(old(self)@, finished@),
    {
        let exited = match &self.active {
            Some(a) => contains_task(finished, a.task),
            None => false,
        };
        if exited {
            self.state = SlotState::Failed("serving task exited unexpectedly".to_string());
            self.active = None;
        }
        let mut kept: Vec<Draining> = Vec::new();
        let mut i: usize = 0;
        proof {
            assert(old(self).draining@.take(0).filter(|d: Draining| !finished@.contains(d.task)) =~= Seq::empty());
        }
        while i < self.draining.len()
            invariant
                i <= self.draining@.len(),
                self.draining@ == old(self).draining@,
                kept@ == self.draining@.take(i as int).filter(|d: Draining| !finished@.contains(d.task)),
            decreases self.draining@.len() - i,
        {
            let d = self.draining[i];
            proof {
                let t = self.draining@.take(i as int + 1);
                assert(t.drop_last() =~= self.draining@.take(i as int));
                reveal_with_fuel(Seq::filter, 2);
            }
            if !contains_task(finished, d.task) {
                kept.push(d);
            }
            i = i + 1;
        }
        assert(self.draining@.take(i as int) =~= self.draining@);
        self.draining = kept;
    }
}

impl Entry {
    fn refresh(&mut self, finished: &Vec<TaskId>)
        ensures
            final(self)@ == (EntryView {
                tcp: refreshed_opt(old(self)@.tcp, finished@),
                udp: refreshed_opt(old(self)@.udp, finished@),
                drain: old(self)@.drain,
            }),
    {
        match &mut self.tcp {
            Some(s) => s.refresh(finished),
            None => {},
        }
        match &mut self.udp {
            Some(s) => s.refresh(finished),
            None => {},
        }
    }

    fn take(&mut self, proto: Proto) -> (r: Option<Slot>)
        ensures
            opt_slot(r) == old(self)@.slot(proto),
            final(self)@ == old(self)@.with(proto, None),
    {
        match proto {
            Proto::Tcp => self.tcp.take(),
            Proto::Udp => self.udp.take(),
        }
    }

    fn put(&mut self, proto: Proto, slot: Slot)
        ensures
            final(self)@ == old(self)@.with(proto, Some(slot@)),
    {
        match proto {
            Proto::Tcp => {
                self.tcp = Some(slot);
            },
            Proto::Udp => {
                self.udp = Some(slot);
            },
        }
    }
}

impl EndpointManager {
    /// The internal map is in order.
    pub closed spec fn wf(&self) -> bool {
        self.entries.wf()
    }

    /// A manager serving nothing, with the default drain policy.
    pub fn new() -> (r: Self)
        ensures
            r.wf(),
            r@.entries == Map::<Seq<char>, EntryView>::empty(),
            r@.policy == types::default_policy(),
    {
        EndpointManager::with_policy(DrainPolicy::default())
    }

    /// Manager with a non-default drain policy, used when the deployment wants
    /// other deadlines than the contract's defaults.
    pub fn with_policy(policy: DrainPolicy) -> (r: Self)
        ensures
            r.wf(),
            r@.entries == Map::<Seq<char>, EntryView>::empty(),
            r@.policy == policy,
    {
        let r = EndpointManager { entries: IdMap::new(), policy };
        assert(r@.entries =~= Map::empty());
        r
    }

    /// Reconcile the recorded state with reality: a serving task that exited on
    /// its own means the slot is not running, whatever it claimed before.
    pub fn refresh(&mut self, finished: &Vec<TaskId>)
        requires
            old(self).wf(),
        ensures
            final(self).wf(),
            final(self)@ == refreshed(old(self)@, finished@),
    {
        let ghost before = self.entries@;
        let ghost f = |e: EntryView|
            EntryView {
                tcp: refreshed_opt(e.tcp, finished@),
                udp: refreshed_opt(e.udp, finished@),
                drain: e.drain,
            };
        let n: usize = self.entries.len();
        let mut i: usize = 0;
        while i < n
            invariant
                i <= n,
                n == self.entries.ids().len(),
                self.entries.wf(),
                self.policy == old(self).policy,
                self.entries@.dom() == before.dom(),
                forall|j: int|
                    0 <= j < i ==> (#[trigger] self.entries@[self.entries.ids()[j]])@ == (EntryView {
                        tcp: refreshed_opt(before[self.entries.ids()[j]]@.tcp, finished@),
                        udp: refreshed_opt(before[self.entries.ids()[j]]@.udp, finished@),
                        drain: before[self.entries.ids()[j]]@.drain,
                    }),
                forall|j: int|
                    i <= j < n ==> #[trigger] self.entries@[self.entries.ids()[j]]
                        == before[self.entries.ids()[j]],
            decreases n - i,
        {
            let ghost prior = self.entries;
            let ghost key = self.entries.ids()[i as int];
            self.entries.value_at_mut(i).refresh(finished);
            proof {
                prior.lemma_position(i as int);
                assert(self.entries@.dom() =~= before.dom());
                assert forall|j: int| 0 <= j < n && j != i implies #[trigger] self.entries.ids()[j] != key by {
                    if j < i {
                        assert(crate::text::precedes(prior.ids()[j], prior.ids()[i as int]));
                        crate::text::lemma_precedes_asymmetric(prior.ids()[j], key);
                    } else {
                        assert(crate::text::precedes(prior.ids()[i as int], prior.ids()[j]));
                        crate::text::lemma_precedes_asymmetric(key, prior.ids()[j]);
                    }
                }
            }
            i = i + 1;
        }
        proof {
            assert forall|k: Seq<char>| #[trigger] before.dom().contains(k) implies self.entries@[k]@ == (EntryView {
                tcp: refreshed_opt(before[k]@.tcp, finished@),
                udp: refreshed_opt(before[k]@.udp, finished@),
                drain: before[k]@.drain,
            }) by {
                assert(self.entries.has(k));
                let p = self.entries.lemma_has_position(k);
                assert(self.entries@[self.entries.ids()[p]]@ == self.entries@[k]@);
            }
            assert(self@ =~= refreshed(old(self)@, finished@));
        }
    }

    fn take_slot(&mut self, id: &str, proto: Proto) -> (r: Option<Slot>)
        requires
            old(self).wf(),
        ensures
            final(self).wf(),
            opt_slot(r) == old(self)@.slot(id@, proto),
            final(self)@ == old(self)@.with_slot(id@, proto, None),
    {
        match self.entries.position(id) {
            Some(i) => {
                let r = self.entries.value_at_mut(i).take(proto);
                assert(self@ =~= old(self)@.with_slot(id@, proto, None));
                r
            },
            None => None,
        }
    }

    fn put_slot(&mut self, id: &str, proto: Proto, slot: Slot)
        requires
            old(self).wf(),
        ensures
            final(self).wf(),
            final(self)@ == old(self)@.with_slot(id@, proto, Some(slot@)),
    {
        match self.entries.position(id) {
            Some(i) => {
                self.entries.value_at_mut(i).put(proto, slot);
                assert(self@ =~= old(self)@.with_slot(id@, proto, Some(slot@)));
            },
            None => {},
        }
    }

    fn slot(&self, id: &str, proto: Proto) -> (r: Option<&Slot>)
        requires
            self.wf(),
        ensures
            r is Some == self@.slot(id@, proto) is Some,
            r matches Some(s) ==> self@.slot(id@, proto) == Some(s@),
    {
        match self.entries.get(id) {
            Some(e) => match proto {
                Proto::Tcp => e.tcp.as_ref(),
                Proto::Udp => e.udp.as_ref(),
            },
            None => None,
        }
    }

    /// Begin with one protocol; `Ok` when it is through at once.
    fn enter_slot(&mut self, op: ApplyOp, proto: Proto, actions: &mut Vec<Action>) -> (r: Result<ApplyOp, ApplyOp>)
        requires
            old(self).wf(),
        ensures
            final(self).wf(),
            ({
                let t = enter_slot(old(self)@, op@, proto);
                &&& final(self)@ == t.manager
                &&& final(actions)@ == old(actions)@ + t.actions
                &&& r is Err == t.waiting
                &&& (match r {
                    Ok(op) => op@,
                    Err(op) => op@,
                }) == t.op
            }),
    {
        let mut op = op;
        let ghost begun = op@;
        if op.spec.wants(proto) {
            let (keep, route) = match self.slot(op.id.as_str(), proto) {
                Some(slot) => match slot.active {
                    Some(a) => {
                        let same = slot.endpoint.same(&op.spec.endpoint) && slot.material == op.spec.material
                            && slot.drain == op.drain;
                        if a.laddr.same_ip_port(&op.spec.endpoint.laddr) {
                            (same, Route::Rebind { former: a })
                        } else {
                            (same, Route::Move { former: a })
                        }
                    },
                    None => (false, Route::Fresh),
                },
                None => (false, Route::Fresh),
            };
            if keep {
                if let Some(mut slot) = self.take_slot(op.id.as_str(), proto) {
                    slot.state = SlotState::Running;
                    self.put_slot(op.id.as_str(), proto, slot);
                }
                proof {
                    types::lemma_outcome_push(
                        op.outcomes@,
                        SlotOutcome { proto, action: SlotAction::Unchanged, error: None, retryable: None },
                    );
                }
                op.outcomes.push(SlotOutcome::ok(proto, SlotAction::Unchanged));
                assert(self@ =~= enter_slot(old(self)@, begun, proto).manager);
                assert(actions@ =~= old(actions)@ + Seq::empty());
                return Ok(op);
            }
            op.stage = Stage::Starting { proto, route };
            if let Route::Rebind { former } = route {
                // the address is occupied by the slot itself: it has to be
                // released before anything can rebind it
                if let Some(mut slot) = self.take_slot(op.id.as_str(), proto) {
                    slot.active = None;
                    self.put_slot(op.id.as_str(), proto, slot);
                }
                actions.push(Action::Stop { task: former.task });
                assert(self@ =~= enter_slot(old(self)@, begun, proto).manager);
            }
            assert(actions@ =~= old(actions)@ + enter_slot(old(self)@, begun, proto).actions);
            Err(op)
        } else {
            match self.take_slot(op.id.as_str(), proto) {
                Some(slot) => {
                    // the rule dropped this data plane: it goes like a delete
                    release(slot.active, op.drain.on_delete, actions);
                    proof {
                        types::lemma_outcome_push(
                            op.outcomes@,
                            SlotOutcome { proto, action: SlotAction::Deleted, error: None, retryable: None },
                        );
                    }
                    op.outcomes.push(SlotOutcome::ok(proto, SlotAction::Deleted));
                    Ok(op)
                },
                None => {
                    proof {
                        lemma_without_slot(old(self)@, op.id@, proto);
                    }
                    assert(actions@ =~= old(actions)@ + Seq::empty());
                    Ok(op)
                },
            }
        }
    }

    fn prune(&mut self, id: &str)
        requires
            old(self).wf(),
        ensures
            final(self).wf(),
            final(self)@ == pruned(old(self)@, id@),
    {
        let i = match self.entries.position(id) {
            Some(i) => i,
            None => {
                return;
            },
        };
        let empty = {
            let entry = self.entries.value_at_mut(i);
            if slot_is_spent(&entry.tcp) {
                entry.tcp = None;
            }
            if slot_is_spent(&entry.udp) {
                entry.udp = None;
            }
            entry.tcp.is_none() && entry.udp.is_none()
        };
        if empty {
            let _ = self.entries.remove(id);
        }
        assert(self@ =~= pruned(old(self)@, id@));
    }

    fn run_udp(&mut self, op: ApplyOp, actions: &mut Vec<Action>) -> (r: Next)
        requires
            old(self).wf(),
        ensures
            final(self).wf(),
            ({
                let p = run_udp(old(self)@, op@);
                &&& final(self)@ == p.manager
                &&& final(actions)@ == old(actions)@ + p.actions
                &&& r@ == p.next
            }),
    {
        match self.enter_slot(op, Proto::Udp, actions) {
            Ok(op) => {
                self.prune(op.id.as_str());
                assert(actions@ =~= old(actions)@ + run_udp(old(self)@, op@).actions) by {
                    assert forall|a: Seq<Action>| #[trigger] (a + Seq::<Action>::empty()) == a by {
                        assert(a + Seq::<Action>::empty() =~= a);
                    }
                }
                Next::Done(op.outcomes)
            },
            Err(op) => Next::More(op),
        }
    }

    fn run_tcp(&mut self, op: ApplyOp, actions: &mut Vec<Action>) -> (r: Next)
        requires
            old(self).wf(),
        ensures
            final(self).wf(),
            ({
                let p = run_tcp(old(self)@, op@);
                &&& final(self)@ == p.manager
                &&& final(actions)@ == old(actions)@ + p.actions
                &&& r@ == p.next
            }),
    {
        let ghost t = enter_slot(self@, op@, Proto::Tcp);
        match self.enter_slot(op, Proto::Tcp, actions) {
            Ok(op) => {
                let r = self.run_udp(op, actions);
                assert(actions@ =~= old(actions)@ + (t.actions + run_udp(t.manager, t.op).actions));
                r
            },
            Err(op) => Next::More(op),
        }
    }

    fn run_after(&mut self, op: ApplyOp, proto: Proto, actions: &mut Vec<Action>) -> (r: Next)
        requires
            old(self).wf(),
        ensures
            final(self).wf(),
            ({
                let p = run_after(old(self)@, op@, proto);
                &&& final(self)@ == p.manager
                &&& final(actions)@ == old(actions)@ + p.actions
                &&& r@ == p.next
            }),
    {
        match proto {
            Proto::Tcp => self.run_udp(op, actions),
            Proto::Udp => {
                self.prune(op.id.as_str());
                assert(actions@ =~= old(actions)@ + Seq::<Action>::empty());
                Next::Done(op.outcomes)
            },
        }
    }

    fn settle(
        &mut self,
        op: ApplyOp,
        proto: Proto,
        slot: Slot,
        outcome: SlotOutcome,
        actions: &mut Vec<Action>,
    ) -> (r: Next)
        requires
            old(self).wf(),
        ensures
            final(self).wf(),
            ({
                let p = settle(old(self)@, op@, proto, slot@, outcome@, Seq::empty());
                &&& final(self)@ == p.manager
                &&& final(actions)@ == old(actions)@ + p.actions
                &&& r@ == p.next
            }),
    {
        let mut op = op;
        self.put_slot(op.id.as_str(), proto, slot);
        proof {
            types::lemma_outcome_push(op.outcomes@, outcome);
        }
        op.outcomes.push(outcome);
        let ghost p = run_after(self@, op@, proto);
        let r = self.run_after(op, proto, actions);
        assert(Seq::<Action>::empty() + p.actions =~= p.actions);
        r
    }

    /// Check a desired endpoint without touching any state.
    pub fn validate(&self, spec: &EndpointSpec) -> (r: Result<(), String>)
        ensures
            r is Err == (!spec.tcp && !spec.udp),
            r matches Err(e) ==> e@ == no_protocol_error(),
    {
        if !spec.tcp && !spec.udp {
            return Err("endpoint enables neither tcp nor udp".to_string());
        }
        Ok(())
    }

    /// Bring `id` to `spec` at `generation`, knowing which tasks have ended.
    ///
    /// Each protocol is applied independently: one failing slot never stops the
    /// other, and a slot that fails keeps whatever was serving before.
    pub fn apply(
        &mut self,
        id: EndpointId,
        generation: Generation,
        spec: EndpointSpec,
        finished: &Vec<TaskId>,
        actions: &mut Vec<Action>,
    ) -> (r: Next)
        requires
            old(self).wf(),
        ensures
            final(self).wf(),
            ({
                let p = apply_begun(old(self)@, id@, generation, spec@, finished@);
                &&& final(self)@ == p.manager
                &&& final(actions)@ == old(actions)@ + p.actions
                &&& r@ == p.next
            }),
    {
        self.refresh(finished);

        if let Err(e) = self.validate(&spec) {
            let mut outcomes: Vec<SlotOutcome> = Vec::new();
            outcomes.push(SlotOutcome::rejected(Proto::Tcp, e));
            assert(types::outcome_views(outcomes@) =~= seq![
                types::rejected_outcome(Proto::Tcp, no_protocol_error()),
            ]);
            assert(actions@ =~= old(actions)@ + Seq::<Action>::empty());
            return Next::Done(outcomes);
        }

        let drain = match spec.drain {
            Some(d) => d,
            None => self.policy,
        };
        self.enroll(id.as_str(), drain);
        let op = ApplyOp {
            id,
            generation,
            spec,
            drain,
            stage: Stage::Starting { proto: Proto::Tcp, route: Route::Fresh },
            outcomes: Vec::new(),
        };
        assert(op@.outcomes =~= Seq::empty());
        self.run_tcp(op, actions)
    }

    fn enroll(&mut self, id: &str, drain: DrainPolicy)
        requires
            old(self).wf(),
        ensures
            final(self).wf(),
            final(self)@ == enrolled(old(self)@, id@, drain),
    {
        match self.entries.position(id) {
            Some(i) => {
                self.entries.value_at_mut(i).drain = drain;
            },
            None => {
                self.entries.insert(id.to_string(), Entry { tcp: None, udp: None, drain });
            },
        }
        assert(self@ =~= enrolled(old(self)@, id@, drain));
    }

    /// Go on with an operation, knowing whether the listener it waited for
    /// could be started.
    pub fn resume(
        &mut self,
        op: ApplyOp,
        started: Result<Bound, String>,
        actions: &mut Vec<Action>,
    ) -> (r: Next)
        requires
            old(self).wf(),
        ensures
            final(self).wf(),
            ({
                let p = apply_resumed(old(self)@, op@, started_view(started));
                &&& final(self)@ == p.manager
                &&& final(actions)@ == old(actions)@ + p.actions
                &&& r@ == p.next
            }),
    {
        match &op.stage {
            Stage::Starting { proto, route } => {
                let proto = *proto;
                match *route {
                    Route::Fresh => self.resume_fresh(op, proto, started, actions),
                    Route::Rebind { former } => self.resume_rebind(op, proto, former, started, actions),
                    Route::Move { former } => self.resume_move(op, proto, former, started, actions),
                }
            },
            Stage::Restarting { proto, former, error, .. } => {
                let proto = *proto;
                let former = *former;
                let error = error.clone();
                self.resume_restart(op, proto, former, error, started, actions)
            },
        }
    }

    fn resume_fresh(
        &mut self,
        op: ApplyOp,
        proto: Proto,
        started: Result<Bound, String>,
        actions: &mut Vec<Action>,
    ) -> (r: Next)
        requires
            old(self).wf(),
            op@.stage == (StageView::Starting { proto, route: Route::Fresh }),
        ensures
            final(self).wf(),
            ({
                let p = apply_resumed(old(self)@, op@, started_view(started));
                &&& final(self)@ == p.manager
                &&& final(actions)@ == old(actions)@ + p.actions
                &&& r@ == p.next
            }),
    {
        let ghost m = self@;
        let draining = match self.take_slot(op.id.as_str(), proto) {
            Some(slot) => slot.draining,
            None => Vec::new(),
        };
        proof {
            lemma_overwrite(m, op.id@, proto);
        }
        let endpoint = op.spec.endpoint.clone();
        let material = op.spec.material;
        let drain = op.drain;
        let generation = op.generation;
        match started {
            Ok(bound) => {
                let slot = Slot {
                    state: SlotState::Running,
                    generation,
                    endpoint,
                    material,
                    drain,
                    active: Some(Active { generation, laddr: bound.laddr, task: bound.task }),
                    draining,
                };
                assert(slot@ =~= running_slot(m.slot(op.id@, proto), op@, bound, Seq::empty()));
                self.settle(op, proto, slot, SlotOutcome::ok(proto, SlotAction::Created), actions)
            },
            Err(reason) => {
                let error = render_bind_error(&endpoint.laddr, reason.as_str());
                let slot = Slot {
                    state: SlotState::Failed(error.clone()),
                    generation,
                    endpoint,
                    material,
                    drain,
                    active: None,
                    draining,
                };
                self.settle(op, proto, slot, SlotOutcome::failed(proto, error), actions)
            },
        }
    }

    fn resume_rebind(
        &mut self,
        op: ApplyOp,
        proto: Proto,
        former: Active,
        started: Result<Bound, String>,
        actions: &mut Vec<Action>,
    ) -> (r: Next)
        requires
            old(self).wf(),
            op@.stage == (StageView::Starting { proto, route: Route::Rebind { former } }),
        ensures
            final(self).wf(),
            ({
                let p = apply_resumed(old(self)@, op@, started_view(started));
                &&& final(self)@ == p.manager
                &&& final(actions)@ == old(actions)@ + p.actions
                &&& r@ == p.next
            }),
    {
        let ghost m = self@;
        let ghost begun = op@;
        match started {
            Ok(bound) => {
                let slot = self.replace_slot(&op, proto, former, bound);
                let deadline = op.drain.on_replace(proto);
                actions.push(Action::Drain { task: former.task, generation: former.generation, deadline });
                let ghost mid = actions@;
                let r = self.settle(op, proto, slot, SlotOutcome::ok(proto, SlotAction::Updated), actions);
                assert(actions@ =~= old(actions)@ + apply_resumed(m, begun, started_view(started)).actions);
                r
            },
            Err(reason) => {
                let mut op = op;
                let endpoint = match self.slot(op.id.as_str(), proto) {
                    Some(slot) => slot.endpoint.clone(),
                    None => op.spec.endpoint.clone(),
                };
                let error = render_bind_error(&op.spec.endpoint.laddr, reason.as_str());
                op.stage = Stage::Restarting { proto, former, endpoint, error };
                assert(actions@ =~= old(actions)@ + Seq::<Action>::empty());
                Next::More(op)
            },
        }
    }

    fn resume_move(
        &mut self,
        op: ApplyOp,
        proto: Proto,
        former: Active,
        started: Result<Bound, String>,
        actions: &mut Vec<Action>,
    ) -> (r: Next)
        requires
            old(self).wf(),
            op@.stage == (StageView::Starting { proto, route: Route::Move { former } }),
        ensures
            final(self).wf(),
            ({
                let p = apply_resumed(old(self)@, op@, started_view(started));
                &&& final(self)@ == p.manager
                &&& final(actions)@ == old(actions)@ + p.actions
                &&& r@ == p.next
            }),
    {
        let ghost m = self@;
        let ghost begun = op@;
        match started {
            Ok(bound) => {
                let slot = self.replace_slot(&op, proto, former, bound);
                release(Some(former), op.drain.on_replace(proto), actions);
                let r = self.settle(op, proto, slot, SlotOutcome::ok(proto, SlotAction::Updated), actions);
                assert(actions@ =~= old(actions)@ + apply_resumed(m, begun, started_view(started)).actions);
                r
            },
            Err(reason) => {
                // the old listener never stopped
                let error = render_bind_error(&op.spec.endpoint.laddr, reason.as_str());
                let outcome = SlotOutcome::failed(proto, error.clone());
                match self.take_slot(op.id.as_str(), proto) {
                    Some(slot) => {
                        let mut slot = slot;
                        slot.state = SlotState::Failed(error);
                        proof {
                            lemma_overwrite(m, op.id@, proto);
                        }
                        self.settle(op, proto, slot, outcome, actions)
                    },
                    None => {
                        proof {
                            lemma_without_slot(m, op.id@, proto);
                            types::lemma_outcome_push(op.outcomes@, outcome);
                        }
                        let mut op = op;
                        op.outcomes.push(outcome);
                        self.run_after(op, proto, actions)
                    },
                }
            },
        }
    }

    fn resume_restart(
        &mut self,
        op: ApplyOp,
        proto: Proto,
        former: Active,
        error: String,
        started: Result<Bound, String>,
        actions: &mut Vec<Action>,
    ) -> (r: Next)
        requires
            old(self).wf(),
            op@.stage matches StageView::Restarting { proto: p, former: f, error: e, .. } && p == proto && f
                == former && e == error@,
        ensures
            final(self).wf(),
            ({
                let p = apply_resumed(old(self)@, op@, started_view(started));
                &&& final(self)@ == p.manager
                &&& final(actions)@ == old(actions)@ + p.actions
                &&& r@ == p.next
            }),
    {
        let ghost m = self@;
        let ghost begun = op@;
        let outcome = SlotOutcome::failed(proto, error.clone());
        let deadline = op.drain.on_replace(proto);
        actions.push(Action::Drain { task: former.task, generation: former.generation, deadline });
        let r = match self.take_slot(op.id.as_str(), proto) {
            Some(slot) => {
                let mut slot = slot;
                slot.state = SlotState::Failed(error);
                slot.active = match started {
                    Ok(bound) => Some(
                        Active { generation: former.generation, laddr: bound.laddr, task: bound.task },
                    ),
                    Err(_) => None,
                };
                let ghost drained = slot.draining@;
                slot.draining.push(Draining { generation: former.generation, task: former.task });
                proof {
                    lemma_overwrite(m, op.id@, proto);
                    assert(slot.draining@ =~= drained + superseded(former));
                }
                self.settle(op, proto, slot, outcome, actions)
            },
            None => {
                proof {
                    lemma_without_slot(m, op.id@, proto);
                    types::lemma_outcome_push(op.outcomes@, outcome);
                }
                let mut op = op;
                op.outcomes.push(outcome);
                self.run_after(op, proto, actions)
            },
        };
        assert(actions@ =~= old(actions)@ + apply_resumed(m, begun, started_view(started)).actions);
        r
    }

    /// The slot of the new endpoint, superseding the one that was serving.
    fn replace_slot(&self, op: &ApplyOp, proto: Proto, former: Active, bound: Bound) -> (r: Slot)
        requires
            self.wf(),
        ensures
            r@ == running_slot(self@.slot(op@.id, proto), op@, bound, superseded(former)),
    {
        let mut draining: Vec<Draining> = Vec::new();
        if let Some(slot) = self.slot(op.id.as_str(), proto) {
            let mut i: usize = 0;
            while i < slot.draining.len()
                invariant
                    i <= slot.draining@.len(),
                    draining@ == slot.draining@.take(i as int),
                decreases slot.draining@.len() - i,
            {
                draining.push(slot.draining[i]);
                i = i + 1;
                assert(draining@ =~= slot.draining@.take(i as int));
            }
            assert(slot.draining@.take(i as int) =~= slot.draining@);
        }
        draining.push(Draining { generation: former.generation, task: former.task });
        let r = Slot {
            state: SlotState::Running,
            generation: op.generation,
            endpoint: op.spec.endpoint.clone(),
            material: op.spec.material,
            drain: op.drain,
            active: Some(Active { generation: op.generation, laddr: bound.laddr, task: bound.task }),
            draining,
        };
        assert(r@ =~= running_slot(self@.slot(op@.id, proto), op@, bound, superseded(former)));
        r
    }

    /// Ids currently known to the manager, in order.
    pub fn ids(&self) -> (r: Vec<EndpointId>)
        requires
            self.wf(),
        ensures
            crate::text::texts(r@) == crate::idmap::in_order(self@.entries.dom()),
            crate::idmap::lists(crate::text::texts(r@), self@.entries.dom()),
    {
        let mut r: Vec<EndpointId> = Vec::new();
        let mut i: usize = 0;
        while i < self.entries.len()
            invariant
                self.wf(),
                i <= self.entries.ids().len(),
                crate::text::texts(r@) == self.entries.ids().take(i as int),
            decreases self.entries.ids().len() - i,
        {
            let ghost before = r@;
            r.push(self.entries.key_at(i).clone());
            i = i + 1;
            assert(crate::text::texts(r@) =~= crate::text::texts(before).push(self.entries.ids()[i - 1]));
            assert(crate::text::texts(r@) =~= self.entries.ids().take(i as int));
        }
        assert(self.entries.ids().take(i as int) =~= self.entries.ids());
        assert forall|k: Seq<char>|
            #[trigger] crate::text::texts(r@).contains(k) == self@.entries.dom().contains(k) by {
            assert(self.entries@.dom().contains(k) == self.entries.ids().contains(k));
        }
        proof {
            crate::idmap::lemma_in_order(crate::text::texts(r@), self@.entries.dom());
        }
        r
    }

    /// Whether an id is currently managed.
    pub fn contains(&self, id: &str) -> (r: bool)
        requires
            self.wf(),
        ensures
            r == self@.entries.dom().contains(id@),
    {
        self.entries.contains(id)
    }

    /// Endpoint currently serving under `id`, per protocol.
    pub fn active_endpoint(&self, id: &str, proto: Proto) -> (r: Option<&Endpoint>)
        requires
            self.wf(),
        ensures
            r is Some == self@.serving(id@, proto) is Some,
            r matches Some(e) ==> self@.serving(id@, proto) == Some(e@),
    {
        match self.slot(id, proto) {
            Some(slot) => if slot.active.is_some() {
                Some(&slot.endpoint)
            } else {
                None
            },
            None => None,
        }
    }

    /// Drain policy in effect for an id.
    pub fn drain_policy(&self, id: &str) -> (r: Option<DrainPolicy>)
        requires
            self.wf(),
        ensures
            r == policy_of(self@, id@),
    {
        match self.entries.get(id) {
            Some(e) => Some(e.drain),
            None => None,
        }
    }

    /// Remove `id` entirely, knowing which tasks have ended: listeners are
    /// released at once, established connections drain under the delete
    /// deadline.
    pub fn remove(
        &mut self,
        id: &str,
        _generation: Generation,
        finished: &Vec<TaskId>,
        actions: &mut Vec<Action>,
    ) -> (r: Vec<SlotOutcome>)
        requires
            old(self).wf(),
        ensures
            final(self).wf(),
            ({
                let x = removed(old(self)@, id@, finished@);
                &&& final(self)@ == x.manager
                &&& final(actions)@ == old(actions)@ + x.actions
                &&& types::outcome_views(r@) == x.outcomes
            }),
    {
        self.refresh(finished);
        let ghost m = self@;
        let ghost x = removed(old(self)@, id@, finished@);
        let mut outcomes: Vec<SlotOutcome> = Vec::new();
        match self.entries.remove(id) {
            Some(entry) => {
                let deadline = entry.drain.on_delete;
                if let Some(slot) = entry.tcp {
                    release(slot.active, deadline, actions);
                    outcomes.push(SlotOutcome::ok(Proto::Tcp, SlotAction::Deleted));
                }
                if let Some(slot) = entry.udp {
                    release(slot.active, deadline, actions);
                    outcomes.push(SlotOutcome::ok(Proto::Udp, SlotAction::Deleted));
                }
                assert(types::outcome_views(outcomes@) =~= x.outcomes);
                assert(actions@ =~= old(actions)@ + x.actions);
                assert(self@ =~= x.manager);
            },
            None => {
                assert(types::outcome_views(outcomes@) =~= Seq::empty());
                assert(actions@ =~= old(actions)@ + Seq::<Action>::empty());
                assert(self@ =~= m);
            },
        }
        outcomes
    }

    /// Stop accepting on one slot without removing it.
    ///
    /// The listener socket is released; the connections it accepted keep
    /// running until they end or the deadline expires.
    pub fn stop_accept(
        &mut self,
        id: &str,
        proto: Proto,
        deadline: Option<Duration>,
        actions: &mut Vec<Action>,
    ) -> (r: Option<SlotOutcome>)
        requires
            old(self).wf(),
        ensures
            final(self).wf(),
            final(self)@ == accept_stopped(old(self)@, id@, proto),
            final(actions)@ == old(actions)@ + release_actions(old(self)@.active(id@, proto), deadline),
            r is Some == old(self)@.active(id@, proto) is Some,
            r matches Some(o) ==> o@ == types::ok_outcome(proto, SlotAction::Draining),
    {
        let active = match self.slot(id, proto) {
            Some(slot) => slot.active,
            None => None,
        };
        match active {
            Some(a) => {
                let ghost m = self@;
                if let Some(mut slot) = self.take_slot(id, proto) {
                    slot.active = None;
                    slot.state = SlotState::Draining;
                    slot.draining.push(Draining { generation: a.generation, task: a.task });
                    self.put_slot(id, proto, slot);
                    proof {
                        lemma_overwrite(m, id@, proto);
                        assert(self@ =~= accept_stopped(m, id@, proto));
                    }
                }
                release(active, deadline, actions);
                Some(SlotOutcome::ok(proto, SlotAction::Draining))
            },
            None => {
                assert(actions@ =~= old(actions)@ + Seq::<Action>::empty());
                None
            },
        }
    }

    /// The tasks whose drains have to end before `id` is drained; they are no
    /// longer listed as draining.
    pub fn wait_drained(&mut self, id: &str) -> (r: Vec<TaskId>)
        requires
            old(self).wf(),
        ensures
            final(self).wf(),
            final(self)@ == drains_taken(old(self)@, id@),
            r@ == drain_tasks(old(self)@.slot(id@, Proto::Tcp)) + drain_tasks(old(self)@.slot(id@, Proto::Udp)),
    {
        let mut r: Vec<TaskId> = Vec::new();
        let ghost m = self@;
        if let Some(mut slot) = self.take_slot(id, Proto::Tcp) {
            push_tasks(&mut r, &slot.draining);
            slot.draining = Vec::new();
            self.put_slot(id, Proto::Tcp, slot);
        } else {
            proof {
                lemma_without_slot(m, id@, Proto::Tcp);
            }
        }
        proof {
            lemma_overwrite(m, id@, Proto::Tcp);
        }
        let ghost mid = self@;
        assert(mid.slot(id@, Proto::Udp) == m.slot(id@, Proto::Udp));
        if let Some(mut slot) = self.take_slot(id, Proto::Udp) {
            push_tasks(&mut r, &slot.draining);
            slot.draining = Vec::new();
            self.put_slot(id, Proto::Udp, slot);
        } else {
            proof {
                lemma_without_slot(mid, id@, Proto::Udp);
            }
        }
        proof {
            lemma_overwrite(mid, id@, Proto::Udp);
            assert(r@ =~= drain_tasks(m.slot(id@, Proto::Tcp)) + drain_tasks(m.slot(id@, Proto::Udp)));
            assert(self@ =~= drains_taken(m, id@));
        }
        r
    }

    /// Current state of every endpoint, in the order of their ids, knowing
    /// which tasks have ended and what the others report.
    pub fn status(&mut self, finished: &Vec<TaskId>, reports: &Vec<TaskReport>) -> (r: Vec<EndpointStatus>)
        requires
            old(self).wf(),
        ensures
            final(self).wf(),
            final(self)@ == refreshed(old(self)@, finished@),
            status_lists(r@, final(self)@, reports@),
    {
        self.refresh(finished);
        let mut r: Vec<EndpointStatus> = Vec::new();
        let mut i: usize = 0;
        while i < self.entries.len()
            invariant
                self.wf(),
                self@ == refreshed(old(self)@, finished@),
                i <= self.entries.ids().len(),
                r@.len() == i,
                forall|j: int|
                    0 <= j < i ==> (#[trigger] r@[j])@ == endpoint_status(
                        self.entries.ids()[j],
                        self@.entries[self.entries.ids()[j]],
                        reports@,
                    ),
            decreases self.entries.ids().len() - i,
        {
            let id = self.entries.key_at(i).clone();
            let entry = self.entries.value_at(i);
            let mut slots: Vec<SlotStatus> = Vec::new();
            if let Some(slot) = &entry.tcp {
                slots.push(slot.status(Proto::Tcp, reports));
            }
            if let Some(slot) = &entry.udp {
                slots.push(slot.status(Proto::Udp, reports));
            }
            let status = EndpointStatus { id, slots };
            assert(status@.slots =~= endpoint_status(id@, entry@, reports@).slots);
            r.push(status);
            i = i + 1;
        }
        proof {
            let ids = Seq::new(r@.len(), |j: int| r@[j]@.id);
            assert(ids =~= self.entries.ids());
            assert forall|k: Seq<char>| #[trigger] ids.contains(k) == self@.entries.dom().contains(k) by {
                assert(self.entries@.dom().contains(k) == self.entries.ids().contains(k));
            }
            crate::idmap::lemma_in_order(ids, self@.entries.dom());
        }
        r
    }
}

/// What a serving or draining task reports about itself.
#[derive(Debug, Clone, Copy, PartialEq, Eq, Structural)]
pub struct TaskReport {
    pub task: TaskId,
    pub connections: usize,
    pub age: Duration,
    pub draining_for: Option<Duration>,
}

/// The first report of a task.
pub open spec fn report_of(reports: Seq<TaskReport>, task: TaskId) -> Option<TaskReport>
    decreases reports.len(),
{
    if reports.len() == 0 {
        None
    } else if reports[0].task == task {
        Some(reports[0])
    } else {
        report_of(reports.drop_first(), task)
    }
}

fn find_report(reports: &Vec<TaskReport>, task: TaskId) -> (r: Option<TaskReport>)
    ensures
        r == report_of(reports@, task),
{
    let mut i: usize = 0;
    assert(reports@.skip(0) =~= reports@);
    while i < reports.len()
        invariant
            i <= reports@.len(),
            report_of(reports@, task) == report_of(reports@.skip(i as int), task),
        decreases reports@.len() - i,
    {
        if reports[i].task == task {
            return Some(reports[i]);
        }
        assert(reports@.skip(i as int).drop_first() =~= reports@.skip(i + 1));
        i = i + 1;
    }
    None
}

/// What is shown of a draining cohort; one that reports nothing is shown empty.
pub open spec fn draining_status(d: Draining, reports: Seq<TaskReport>) -> DrainingStatus {
    match report_of(reports, d.task) {
        Some(t) => DrainingStatus {
            generation: d.generation,
            connections: t.connections,
            age: t.age,
            draining_for: t.draining_for,
        },
        None => DrainingStatus {
            generation: d.generation,
            connections: 0,
            age: crate::time::no_time(),
            draining_for: None,
        },
    }
}

/// Live connections of what a slot runs.
pub open spec fn active_connections(active: Option<Active>, reports: Seq<TaskReport>) -> usize {
    match active {
        Some(a) => match report_of(reports, a.task) {
            Some(t) => t.connections,
            None => 0,
        },
        None => 0,
    }
}

pub open spec fn slot_status(proto: Proto, s: SlotView, reports: Seq<TaskReport>) -> SlotStatusView {
    SlotStatusView {
        proto,
        state: s.state,
        generation: s.generation,
        laddr: match s.active {
            Some(a) => Some(a.laddr),
            None => None,
        },
        connections: active_connections(s.active, reports),
        draining: Seq::new(s.draining.len(), |i: int| draining_status(s.draining[i], reports)),
    }
}

pub open spec fn opt_slot_status(proto: Proto, s: Option<SlotView>, reports: Seq<TaskReport>) -> Seq<SlotStatusView> {
    match s {
        Some(s) => seq![slot_status(proto, s, reports)],
        None => Seq::empty(),
    }
}

pub open spec fn endpoint_status(id: Seq<char>, e: EntryView, reports: Seq<TaskReport>) -> EndpointStatusView {
    EndpointStatusView {
        id,
        slots: opt_slot_status(Proto::Tcp, e.tcp, reports) + opt_slot_status(Proto::Udp, e.udp, reports),
    }
}

/// A list shows exactly the endpoints of a manager, in the order of their ids.
pub open spec fn status_lists(r: Seq<EndpointStatus>, m: ManagerView, reports: Seq<TaskReport>) -> bool {
    &&& Seq::new(r.len(), |j: int| r[j]@.id) == crate::idmap::in_order(m.entries.dom())
    &&& forall|j: int|
        0 <= j < r.len() ==> (#[trigger] r[j])@ == endpoint_status(r[j]@.id, m.entries[r[j]@.id], reports)
}

impl Slot {
    fn status(&self, proto: Proto, reports: &Vec<TaskReport>) -> (r: SlotStatus)
        ensures
            r@ == slot_status(proto, self@, reports@),
    {
        let mut draining: Vec<DrainingStatus> = Vec::new();
        let mut i: usize = 0;
        while i < self.draining.len()
            invariant
                i <= self.draining@.len(),
                draining@.len() == i,
                forall|j: int| 0 <= j < i ==> draining@[j] == draining_status(self.draining@[j], reports@),
            decreases self.draining@.len() - i,
        {
            let d = self.draining[i];
            draining.push(
                match find_report(reports, d.task) {
                    Some(t) => DrainingStatus {
                        generation: d.generation,
                        connections: t.connections,
                        age: t.age,
                        draining_for: t.draining_for,
                    },
                    None => DrainingStatus {
                        generation: d.generation,
                        connections: 0,
                        age: Duration::from_secs(0),
                        draining_for: None,
                    },
                },
            );
            i = i + 1;
        }
        let connections: usize = match self.active {
            Some(a) => match find_report(reports, a.task) {
                Some(t) => t.connections,
                None => 0,
            },
            None => 0,
        };
        let laddr = match self.active {
            Some(a) => Some(a.laddr),
            None => None,
        };
        let r = SlotStatus {
            proto,
            state: self.state.clone(),
            generation: self.generation,
            laddr,
            connections,
            draining,
        };
        assert(r@.draining =~= slot_status(proto, self@, reports@).draining);
        r
    }
}

/// The drain policy in effect for an id.
pub open spec fn policy_of(m: ManagerView, id: Seq<char>) -> Option<DrainPolicy> {
    if m.entries.dom().contains(id) {
        Some(m.entries[id].drain)
    } else {
        None
    }
}

/// What removing an id does.
pub struct Removal {
    pub manager: ManagerView,
    pub actions: Seq<Action>,
    pub outcomes: Seq<SlotOutcomeView>,
}

pub open spec fn slot_removal(s: Option<SlotView>, proto: Proto) -> Seq<SlotOutcomeView> {
    match s {
        Some(_) => seq![types::ok_outcome(proto, SlotAction::Deleted)],
        None => Seq::empty(),
    }
}

pub open spec fn slot_release(s: Option<SlotView>, deadline: Option<Duration>) -> Seq<Action> {
    match s {
        Some(s) => release_actions(s.active, deadline),
        None => Seq::empty(),
    }
}

/// Remove an id: every slot is reported deleted, what runs is released under
/// the delete deadline, and the id is forgotten.
pub open spec fn removed(m: ManagerView, id: Seq<char>, finished: Seq<TaskId>) -> Removal {
    let m = refreshed(m, finished);
    if m.entries.dom().contains(id) {
        let e = m.entries[id];
        Removal {
            manager: ManagerView { entries: m.entries.remove(id), ..m },
            actions: slot_release(e.tcp, e.drain.on_delete) + slot_release(e.udp, e.drain.on_delete),
            outcomes: slot_removal(e.tcp, Proto::Tcp) + slot_removal(e.udp, Proto::Udp),
        }
    } else {
        Removal { manager: m, actions: Seq::empty(), outcomes: Seq::empty() }
    }
}

/// The state after a slot stopped accepting.
pub open spec fn accept_stopped(m: ManagerView, id: Seq<char>, proto: Proto) -> ManagerView {
    match m.active(id, proto) {
        Some(a) => {
            let s = m.slot(id, proto)->0;
            m.with_slot(
                id,
                proto,
                Some(
                    SlotView {
                        state: SlotStateView::Draining,
                        active: None,
                        draining: s.draining.push(Draining { generation: a.generation, task: a.task }),
                        ..s
                    },
                ),
            )
        },
        None => m,
    }
}

pub open spec fn drain_tasks(s: Option<SlotView>) -> Seq<TaskId> {
    match s {
        Some(s) => Seq::new(s.draining.len(), |i: int| s.draining[i].task),
        None => Seq::empty(),
    }
}

pub open spec fn undraining(s: Option<SlotView>) -> Option<SlotView> {
    match s {
        Some(s) => Some(SlotView { draining: Seq::empty(), ..s }),
        None => None,
    }
}

/// The state with no draining cohort of an id left.
pub open spec fn drains_taken(m: ManagerView, id: Seq<char>) -> ManagerView {
    if m.entries.dom().contains(id) {
        let e = m.entries[id];
        ManagerView {
            entries: m.entries.insert(
                id,
                EntryView { tcp: undraining(e.tcp), udp: undraining(e.udp), drain: e.drain },
            ),
            ..m
        }
    } else {
        m
    }
}

fn push_tasks(out: &mut Vec<TaskId>, draining: &Vec<Draining>)
    ensures
        final(out)@ == old(out)@ + Seq::new(draining@.len(), |i: int| draining@[i].task),
{
    let ghost all = Seq::new(draining@.len(), |i: int| draining@[i].task);
    let mut i: usize = 0;
    assert(out@ =~= old(out)@ + all.take(0));
    while i < draining.len()
        invariant
            i <= draining@.len(),
            all == Seq::new(draining@.len(), |i: int| draining@[i].task),
            out@ == old(out)@ + all.take(i as int),
        decreases draining@.len() - i,
    {
        out.push(draining[i].task);
        i = i + 1;
        assert(out@ =~= old(out)@ + all.take(i as int));
    }
    assert(all.take(i as int) =~= all);
}

impl ApplyOp {
    /// The listener that has to be started before the operation can go on.
    pub fn awaits(&self) -> (r: StartRequest)
        ensures
            r@ == awaited(self@),
    {
        match &self.stage {
            Stage::Starting { proto, .. } => StartRequest {
                proto: *proto,
                endpoint: self.spec.endpoint.clone(),
                generation: self.generation,
            },
            Stage::Restarting { proto, former, endpoint, .. } => StartRequest {
                proto: *proto,
                endpoint: endpoint.clone(),
                generation: former.generation,
            },
        }
    }
}

/// Whether a listener could be started, or why not.
pub open spec fn started_view(r: Result<Bound, String>) -> Result<Bound, Seq<char>> {
    match r {
        Ok(b) => Ok(b),
        Err(e) => Err(e@),
    }
}

fn render_bind_error(laddr: &SocketAddr, reason: &str) -> (r: String)
    ensures
        r@ == bind_error(*laddr, reason@),
{
    let mut r = "failed to bind ".to_string();
    r.append(laddr.render().as_str());
    r.append(": ");
    r.append(reason);
    r
}

/// Of two replacements of one slot the second stands.
proof fn lemma_overwrite(m: ManagerView, id: Seq<char>, proto: Proto)
    ensures
        forall|s: Option<SlotView>|
            #![trigger m.with_slot(id, proto, s)]
            m.with_slot(id, proto, None).with_slot(id, proto, s) == m.with_slot(id, proto, s),
{
    assert forall|s: Option<SlotView>|
        #![trigger m.with_slot(id, proto, s)]
        m.with_slot(id, proto, None).with_slot(id, proto, s) == m.with_slot(id, proto, s) by {
        assert(m.with_slot(id, proto, None).with_slot(id, proto, s) =~= m.with_slot(id, proto, s));
    }
}

/// Replacing an absent slot by nothing changes nothing.
proof fn lemma_without_slot(m: ManagerView, id: Seq<char>, proto: Proto)
    requires
        m.slot(id, proto) is None,
    ensures
        m.with_slot(id, proto, None) == m,
{
    assert(m.with_slot(id, proto, None) =~= m);
}

fn slot_is_spent(slot: &Option<Slot>) -> (r: bool)
    ensures
        r == spent(opt_slot(*slot)),
{
    match slot {
        Some(s) => s.active.is_none() && s.draining.len() == 0 && matches!(s.state, SlotState::Stopped),
        None => true,
    }
}

fn release(active: Option<Active>, deadline: Option<Duration>, actions: &mut Vec<Action>)
    ensures
        final(actions)@ == old(actions)@ + release_actions(active, deadline),
{
    if let Some(a) = active {
        actions.push(Action::Stop { task: a.task });
        actions.push(Action::Drain { task: a.task, generation: a.generation, deadline });
    }
    assert(actions@ =~= old(actions)@ + release_actions(active, deadline));
}

} // verus!
