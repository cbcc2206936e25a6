//! Vocabulary shared by the lifecycle modules.

use vstd::prelude::*;

use crate::endpoint::Endpoint;
use crate::net::SocketAddr;
use crate::text::dup_opt;
use crate::time::Duration;

verus! {

/// Caller-provided stable key of an endpoint, opaque to this crate.
pub type EndpointId = String;

/// Caller-provided monotonic version of the desired state.
pub type Generation = u64;

/// Handle of a serving task, given out by whoever runs it.
pub type TaskId = u64;

/// Default deadline before a deleted endpoint's connections are force-closed,
/// in seconds.
pub const DEFAULT_DELETE_DRAIN: u64 = 30;

/// One data plane of a rule.
#[derive(Debug, Clone, Copy, PartialEq, Eq, PartialOrd, Ord, Hash, Structural)]
pub enum Proto {
    Tcp,
    Udp,
}

/// The name of a protocol.
pub open spec fn proto_name(proto: Proto) -> Seq<char> {
    match proto {
        Proto::Tcp => "tcp"@,
        Proto::Udp => "udp"@,
    }
}

impl Proto {
    /// `tcp` or `udp`.
    pub fn name(&self) -> (r: &'static str)
        ensures
            r@ == proto_name(*self),
    {
        match self {
            Proto::Tcp => "tcp",
            Proto::Udp => "udp",
        }
    }
}

/// State of one `(id, protocol)` slot.
#[derive(Debug)]
pub enum SlotState {
    /// being validated, nothing bound yet
    Validating,
    /// bind in progress
    Binding,
    /// bound and serving
    Running,
    /// no longer accepting, existing connections still draining
    Draining,
    /// stopped, nothing left
    Stopped,
    /// validation, bind or the serving task failed
    Failed(String),
}

pub enum SlotStateView {
    Validating,
    Binding,
    Running,
    Draining,
    Stopped,
    Failed(Seq<char>),
}

impl View for SlotState {
    type V = SlotStateView;

    open spec fn view(&self) -> SlotStateView {
        match self {
            SlotState::Validating => SlotStateView::Validating,
            SlotState::Binding => SlotStateView::Binding,
            SlotState::Running => SlotStateView::Running,
            SlotState::Draining => SlotStateView::Draining,
            SlotState::Stopped => SlotStateView::Stopped,
            SlotState::Failed(e) => SlotStateView::Failed(e@),
        }
    }
}

impl Clone for SlotState {
    fn clone(&self) -> (r: Self)
        ensures
            r@ == self@,
    {
        match self {
            SlotState::Validating => SlotState::Validating,
            SlotState::Binding => SlotState::Binding,
            SlotState::Running => SlotState::Running,
            SlotState::Draining => SlotState::Draining,
            SlotState::Stopped => SlotState::Stopped,
            SlotState::Failed(e) => SlotState::Failed(e.clone()),
        }
    }
}

/// What an operation did to one slot.
#[derive(Debug, Clone, Copy, PartialEq, Eq, Structural)]
pub enum SlotAction {
    Unchanged,
    Created,
    Updated,
    Draining,
    Deleted,
    Failed,
}

/// Result of an operation on one slot.
#[derive(Debug)]
pub struct SlotOutcome {
    pub proto: Proto,
    pub action: SlotAction,
    pub error: Option<String>,
    /// For a failure: whether resubmitting the same desired state may succeed.
    /// Absent when the operation did not fail.
    pub retryable: Option<bool>,
}

pub struct SlotOutcomeView {
    pub proto: Proto,
    pub action: SlotAction,
    pub error: Option<Seq<char>>,
    pub retryable: Option<bool>,
}

impl View for SlotOutcome {
    type V = SlotOutcomeView;

    open spec fn view(&self) -> SlotOutcomeView {
        SlotOutcomeView {
            proto: self.proto,
            action: self.action,
            error: crate::text::opt_text(self.error),
            retryable: self.retryable,
        }
    }
}

/// The outcomes of a list.
pub open spec fn outcome_views(v: Seq<SlotOutcome>) -> Seq<SlotOutcomeView> {
    Seq::new(v.len(), |i: int| v[i]@)
}

/// Appending an outcome.
pub(crate) proof fn lemma_outcome_push(v: Seq<SlotOutcome>, o: SlotOutcome)
    ensures
        outcome_views(v.push(o)) == outcome_views(v).push(o@),
{
    assert(outcome_views(v.push(o)) =~= outcome_views(v).push(o@));
}

pub open spec fn ok_outcome(proto: Proto, action: SlotAction) -> SlotOutcomeView {
    SlotOutcomeView { proto, action, error: None, retryable: None }
}

pub open spec fn failed_outcome(proto: Proto, error: Seq<char>) -> SlotOutcomeView {
    SlotOutcomeView { proto, action: SlotAction::Failed, error: Some(error), retryable: Some(true) }
}

pub open spec fn rejected_outcome(proto: Proto, error: Seq<char>) -> SlotOutcomeView {
    SlotOutcomeView { proto, action: SlotAction::Failed, error: Some(error), retryable: Some(false) }
}

impl SlotOutcome {
    /// Anything but a failure.
    pub fn ok(proto: Proto, action: SlotAction) -> (r: Self)
        ensures
            r@ == ok_outcome(proto, action),
    {
        SlotOutcome { proto, action, error: None, retryable: None }
    }

    /// A failure the caller may retry: binding, and anything else the operating
    /// system refused for a reason that can change on its own.
    pub fn failed(proto: Proto, error: String) -> (r: Self)
        ensures
            r@ == failed_outcome(proto, error@),
    {
        SlotOutcome { proto, action: SlotAction::Failed, error: Some(error), retryable: Some(true) }
    }

    /// A failure that will fail again unchanged.
    pub fn rejected(proto: Proto, error: String) -> (r: Self)
        ensures
            r@ == rejected_outcome(proto, error@),
    {
        SlotOutcome { proto, action: SlotAction::Failed, error: Some(error), retryable: Some(false) }
    }
}

/// How long established connections may keep running after their generation
/// has been superseded or removed.
#[derive(Debug, Clone, Copy, PartialEq, Eq, Structural)]
pub struct DrainPolicy {
    /// absent drains indefinitely: an update must not terminate established
    /// connections
    pub on_update: Option<Duration>,
    /// deadline after which a deleted endpoint's connections are force-closed
    pub on_delete: Option<Duration>,
}

/// Updates never terminate, deletes do after the default deadline.
pub open spec fn default_policy() -> DrainPolicy {
    DrainPolicy { on_update: None, on_delete: Some(Duration { secs: DEFAULT_DELETE_DRAIN, nanos: 0 }) }
}

impl Default for DrainPolicy {
    fn default() -> (r: Self)
        ensures
            r == default_policy(),
    {
        DrainPolicy { on_update: None, on_delete: Some(Duration::from_secs(DEFAULT_DELETE_DRAIN)) }
    }
}

/// How long what a replaced listener served may keep running: tcp connections
/// as the policy says, udp associations not at all.
pub open spec fn replaced_deadline(policy: DrainPolicy, proto: Proto) -> Option<Duration> {
    match proto {
        Proto::Tcp => policy.on_update,
        Proto::Udp => Some(crate::time::no_time()),
    }
}

impl DrainPolicy {
    /// The deadline of what a replaced listener served.
    pub fn on_replace(&self, proto: Proto) -> (r: Option<Duration>)
        ensures
            r == replaced_deadline(*self, proto),
    {
        match proto {
            Proto::Tcp => self.on_update,
            Proto::Udp => Some(Duration::from_secs(0)),
        }
    }
}

/// Desired state of one endpoint, as the lifecycle sees it.
#[derive(Debug)]
pub struct EndpointSpec {
    pub endpoint: Endpoint,
    /// serve tcp for this rule
    pub tcp: bool,
    /// serve udp for this rule
    pub udp: bool,
    /// per-endpoint override of the drain deadlines
    pub drain: Option<DrainPolicy>,
    /// digest of the certificate material the endpoint was built from
    pub material: Option<u64>,
}

pub struct EndpointSpecView {
    pub endpoint: crate::endpoint::EndpointView,
    pub tcp: bool,
    pub udp: bool,
    pub drain: Option<DrainPolicy>,
    pub material: Option<u64>,
}

impl View for EndpointSpec {
    type V = EndpointSpecView;

    open spec fn view(&self) -> EndpointSpecView {
        EndpointSpecView {
            endpoint: self.endpoint@,
            tcp: self.tcp,
            udp: self.udp,
            drain: self.drain,
            material: self.material,
        }
    }
}

impl Clone for EndpointSpec {
    fn clone(&self) -> (r: Self)
        ensures
            r@ == self@,
    {
        EndpointSpec {
            endpoint: self.endpoint.clone(),
            tcp: self.tcp,
            udp: self.udp,
            drain: self.drain,
            material: self.material,
        }
    }
}

impl EndpointSpecView {
    /// Whether the rule asks for a protocol.
    pub open spec fn wants(self, proto: Proto) -> bool {
        match proto {
            Proto::Tcp => self.tcp,
            Proto::Udp => self.udp,
        }
    }

    /// The protocols the rule asks for, tcp first.
    pub open spec fn protos(self) -> Seq<Proto> {
        (if self.tcp {
            seq![Proto::Tcp]
        } else {
            Seq::empty()
        }) + (if self.udp {
            seq![Proto::Udp]
        } else {
            Seq::empty()
        })
    }
}

impl EndpointSpec {
    /// Protocols this rule asks for, in a stable order.
    pub fn protos(&self) -> (r: Vec<Proto>)
        ensures
            r@ == self@.protos(),
    {
        let mut protos: Vec<Proto> = Vec::new();
        if self.tcp {
            protos.push(Proto::Tcp);
        }
        if self.udp {
            protos.push(Proto::Udp);
        }
        assert(protos@ =~= self@.protos());
        protos
    }

    /// Whether this rule asks for a protocol.
    pub fn wants(&self, proto: Proto) -> (r: bool)
        ensures
            r == self@.wants(proto),
    {
        match proto {
            Proto::Tcp => self.tcp,
            Proto::Udp => self.udp,
        }
    }
}

/// Observable state of one draining cohort.
#[derive(Debug, Clone, Copy, PartialEq, Eq, Structural)]
pub struct DrainingStatus {
    pub generation: Generation,
    pub connections: usize,
    pub age: Duration,
    pub draining_for: Option<Duration>,
}

/// Observable state of one `(id, protocol)` slot.
#[derive(Debug)]
pub struct SlotStatus {
    pub proto: Proto,
    pub state: SlotState,
    pub generation: Generation,
    pub laddr: Option<SocketAddr>,
    pub connections: usize,
    pub draining: Vec<DrainingStatus>,
}

pub struct SlotStatusView {
    pub proto: Proto,
    pub state: SlotStateView,
    pub generation: Generation,
    pub laddr: Option<SocketAddr>,
    pub connections: usize,
    pub draining: Seq<DrainingStatus>,
}

impl View for SlotStatus {
    type V = SlotStatusView;

    open spec fn view(&self) -> SlotStatusView {
        SlotStatusView {
            proto: self.proto,
            state: self.state@,
            generation: self.generation,
            laddr: self.laddr,
            connections: self.connections,
            draining: self.draining@,
        }
    }
}

/// Observable state of one endpoint.
#[derive(Debug)]
pub struct EndpointStatus {
    pub id: EndpointId,
    pub slots: Vec<SlotStatus>,
}

pub struct EndpointStatusView {
    pub id: Seq<char>,
    pub slots: Seq<SlotStatusView>,
}

impl View for EndpointStatus {
    type V = EndpointStatusView;

    open spec fn view(&self) -> EndpointStatusView {
        EndpointStatusView { id: self.id@, slots: Seq::new(self.slots@.len(), |i: int| self.slots@[i]@) }
    }
}

/// The outcome again.
impl Clone for SlotOutcome {
    fn clone(&self) -> (r: Self)
        ensures
            r@ == self@,
    {
        SlotOutcome {
            proto: self.proto,
            action: self.action,
            error: dup_opt(&self.error),
            retryable: self.retryable,
        }
    }
}

} // verus!
