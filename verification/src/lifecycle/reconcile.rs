//! Desired-state reconciliation.
//!
//! The caller publishes the node's *complete* desired state for a generation;
//! the reconciler computes the difference against what is being served and only
//! touches the endpoints that actually changed.
//!
//! - a submission is carried through from start to end before the next one is
//!   looked at, by whoever drives it,
//! - generations are idempotent: the caller's generation is monotonic, a repeated
//!   submission returns the first result without disturbing traffic a second
//!   time, and an older one is refused.
//!
//! Endpoints succeed or fail one by one: a generation in which some endpoint
//! failed is *partially applied*, still becomes the active generation, and is
//! healed by submitting a later one.
//!
//! A submission pauses wherever it has to know something only the outside can
//! tell. [`Pending`] says what, [`Reconciler::resume`] takes the answer.

use vstd::prelude::*;
use vstd::string::*;

use crate::idmap::IdMap;
use crate::lifecycle::manager;
use crate::lifecycle::manager::{
    Action, ApplyOp, ApplyOpView, Bound, EndpointManager, ManagerView, Next, NextView, StartRequest,
    StartRequestView, TaskReport,
};
use crate::lifecycle::plan;
use crate::lifecycle::plan::{DesiredEndpoint, DesiredView, EndpointSource, Plan, PlanView};
use crate::lifecycle::snapshot::{Snapshot, SnapshotStore, SnapshotView};
use crate::lifecycle::types;
use crate::lifecycle::types::{
    EndpointId, EndpointSpec, EndpointSpecView, EndpointStatus, Generation, Proto, SlotAction, SlotOutcome,
    SlotOutcomeView, TaskId,
};
use crate::net;
use crate::net::SocketAddr;
use crate::text::{dup_opt, push_number, same_text};

verus! {

/// One desired-state submission.
#[derive(Debug)]
pub struct ReconcileRequest<S> {
    pub generation: Generation,
    pub endpoints: Vec<DesiredEndpoint<S>>,
}

/// Whether a generation was applied in full.
#[derive(Debug, Clone, Copy, PartialEq, Eq, Structural)]
pub enum GenerationState {
    Applied,
    PartiallyApplied,
}

/// Per `(id, protocol)` outcome of a submission.
#[derive(Debug)]
pub struct EndpointResult {
    pub id: EndpointId,
    pub proto: Proto,
    pub action: SlotAction,
    pub error: Option<String>,
    /// For a failure: whether resubmitting the same desired state may succeed.
    /// Absent when this endpoint did not fail.
    pub retryable: Option<bool>,
}

#[verifier::ext_equal]
pub struct ResultView {
    pub id: Seq<char>,
    pub proto: Proto,
    pub action: SlotAction,
    pub error: Option<Seq<char>>,
    pub retryable: Option<bool>,
}

impl View for EndpointResult {
    type V = ResultView;

    open spec fn view(&self) -> ResultView {
        ResultView {
            id: self.id@,
            proto: self.proto,
            action: self.action,
            error: crate::text::opt_text(self.error),
            retryable: self.retryable,
        }
    }
}

impl Clone for EndpointResult {
    fn clone(&self) -> (r: Self)
        ensures
            r@ == self@,
    {
        EndpointResult {
            id: self.id.clone(),
            proto: self.proto,
            action: self.action,
            error: dup_opt(&self.error),
            retryable: self.retryable,
        }
    }
}

pub open spec fn result_views(v: Seq<EndpointResult>) -> Seq<ResultView> {
    Seq::new(v.len(), |i: int| v[i]@)
}

proof fn lemma_result_push(v: Seq<EndpointResult>, x: EndpointResult)
    ensures
        result_views(v.push(x)) == result_views(v).push(x@),
{
    assert(result_views(v.push(x)) =~= result_views(v).push(x@));
}

/// Answer to a submission.
#[derive(Debug)]
pub struct ReconcileResponse {
    pub generation: Generation,
    pub state: GenerationState,
    pub results: Vec<EndpointResult>,
}

#[verifier::ext_equal]
pub struct ResponseView {
    pub generation: Generation,
    pub state: GenerationState,
    pub results: Seq<ResultView>,
}

impl View for ReconcileResponse {
    type V = ResponseView;

    open spec fn view(&self) -> ResponseView {
        ResponseView { generation: self.generation, state: self.state, results: result_views(self.results@) }
    }
}

impl Clone for ReconcileResponse {
    fn clone(&self) -> (r: Self)
        ensures
            r@ == self@,
    {
        let mut results: Vec<EndpointResult> = Vec::new();
        let mut i: usize = 0;
        while i < self.results.len()
            invariant
                i <= self.results@.len(),
                result_views(results@) == result_views(self.results@).take(i as int),
            decreases self.results@.len() - i,
        {
            let x = self.results[i].clone();
            proof {
                lemma_result_push(results@, x);
            }
            results.push(x);
            i = i + 1;
            assert(result_views(results@) =~= result_views(self.results@).take(i as int));
        }
        assert(result_views(self.results@).take(i as int) =~= result_views(self.results@));
        ReconcileResponse { generation: self.generation, state: self.state, results }
    }
}

pub open spec fn opt_response(r: Option<ReconcileResponse>) -> Option<ResponseView> {
    match r {
        Some(r) => Some(r@),
        None => None,
    }
}

/// Why a submission was not applied at all.
///
/// Split along the axis the caller needs in order to decide what to do: a
/// terminal error will fail again unchanged, a retryable one may not.
#[derive(Debug)]
pub enum ReconcileError {
    /// the submitted generation is older than the active one: terminal
    Stale { active: Generation },
    /// the process has not finished restoring its snapshot yet: retryable
    NotReady,
    /// the reconciler is gone: retryable
    Internal(String),
}

pub enum ErrorView {
    Stale { active: Generation },
    NotReady,
    Internal(Seq<char>),
}

impl View for ReconcileError {
    type V = ErrorView;

    open spec fn view(&self) -> ErrorView {
        match self {
            ReconcileError::Stale { active } => ErrorView::Stale { active: *active },
            ReconcileError::NotReady => ErrorView::NotReady,
            ReconcileError::Internal(e) => ErrorView::Internal(e@),
        }
    }
}

/// What an error says.
pub open spec fn error_text(e: ErrorView) -> Seq<char> {
    match e {
        ErrorView::Stale { active } => "stale generation, active generation is "@ + crate::text::decimal(
            active as nat,
        ),
        ErrorView::NotReady => "not ready: snapshot restore has not finished"@,
        ErrorView::Internal(e) => "internal error: "@ + e,
    }
}

impl ReconcileError {
    /// Whether retrying the same request may succeed.
    pub fn is_retryable(&self) -> (r: bool)
        ensures
            r == !(self is Stale),
    {
        match self {
            ReconcileError::Stale { .. } => false,
            ReconcileError::NotReady | ReconcileError::Internal(_) => true,
        }
    }

    /// The error as text.
    pub fn message(&self) -> (r: String)
        ensures
            r@ == error_text(self@),
    {
        match self {
            ReconcileError::Stale { active } => {
                let mut r = "stale generation, active generation is ".to_string();
                push_number(&mut r, *active, 10);
                r
            },
            ReconcileError::NotReady => "not ready: snapshot restore has not finished".to_string(),
            ReconcileError::Internal(e) => {
                let mut r = "internal error: ".to_string();
                r.append(e.as_str());
                r
            },
        }
    }
}

// ------------------------------------------------------------------- state --

/// Applies desired states, one generation at a time.
pub struct Reconciler<S> {
    manager: EndpointManager,
    /// desired state currently applied, per id
    applied: IdMap<S>,
    /// the generation that is active, once one has been applied
    active: Option<Generation>,
    /// response of the active generation, replayed for idempotent retries
    last: Option<ReconcileResponse>,
    /// content of the active generation's request, so a same-generation
    /// resubmission with *different* content is caught instead of being handed
    /// the first payload's success
    content: Option<Vec<DesiredEndpoint<S>>>,
    /// whether the active generation is only partially applied
    partial: bool,
    /// false until a snapshot restore has finished
    ready: bool,
    /// where the last-known-good state is persisted
    snapshot: Option<SnapshotStore>,
}

#[verifier::ext_equal]
pub struct ReconcilerView<V> {
    pub manager: ManagerView,
    pub applied: Map<Seq<char>, V>,
    pub active: Option<Generation>,
    pub last: Option<ResponseView>,
    pub content: Option<Seq<DesiredView<V>>>,
    pub partial: bool,
    pub ready: bool,
    /// where the last-known-good state is kept, if anywhere
    pub location: Option<Seq<char>>,
}

impl<S: View> View for Reconciler<S> {
    type V = ReconcilerView<S::V>;

    closed spec fn view(&self) -> ReconcilerView<S::V> {
        ReconcilerView {
            manager: self.manager@,
            applied: plan::spec_views(self.applied@),
            active: self.active,
            last: opt_response(self.last),
            content: match self.content {
                Some(c) => Some(plan::desired_views(c@)),
                None => None,
            },
            partial: self.partial,
            ready: self.ready,
            location: match self.snapshot {
                Some(store) => Some(store.location()),
                None => None,
            },
        }
    }
}

/// What a submission waits for while its plans are being applied.
pub enum ApplyStage {
    /// which tasks have ended, before the next endpoint is touched
    Polling,
    /// a listener of the endpoint being applied
    Starting(ApplyOp),
    /// a build of the endpoint's previous description, after its move failed
    Rebuilding,
    /// which tasks have ended, before the previous endpoint is put back
    Repolling(EndpointSpec),
    /// a listener of the previous endpoint
    Restarting(ApplyOp),
}

pub enum ApplyStageView {
    Polling,
    Starting(ApplyOpView),
    Rebuilding,
    Repolling(EndpointSpecView),
    Restarting(ApplyOpView),
}

impl View for ApplyStage {
    type V = ApplyStageView;

    open spec fn view(&self) -> ApplyStageView {
        match self {
            ApplyStage::Polling => ApplyStageView::Polling,
            ApplyStage::Starting(op) => ApplyStageView::Starting(op@),
            ApplyStage::Rebuilding => ApplyStageView::Rebuilding,
            ApplyStage::Repolling(built) => ApplyStageView::Repolling(built@),
            ApplyStage::Restarting(op) => ApplyStageView::Restarting(op@),
        }
    }
}

/// A generation being applied.
pub struct Applying<S> {
    generation: Generation,
    submitted: Vec<DesiredEndpoint<S>>,
    plans: IdMap<Plan>,
    /// the plan being applied
    index: usize,
    desired: IdMap<S>,
    released: Vec<EndpointId>,
    results: Vec<EndpointResult>,
    stage: ApplyStage,
}

#[verifier::ext_equal]
pub struct ApplyingView<V> {
    pub generation: Generation,
    pub submitted: Seq<DesiredView<V>>,
    pub order: Seq<Seq<char>>,
    pub plans: Map<Seq<char>, PlanView>,
    pub index: int,
    pub desired: Map<Seq<char>, V>,
    pub released: Seq<Seq<char>>,
    pub results: Seq<ResultView>,
    pub stage: ApplyStageView,
}

impl<S: View> View for Applying<S> {
    type V = ApplyingView<S::V>;

    closed spec fn view(&self) -> ApplyingView<S::V> {
        ApplyingView {
            generation: self.generation,
            submitted: plan::desired_views(self.submitted@),
            order: self.plans.ids(),
            plans: plan::plan_views(self.plans@),
            index: self.index as int,
            desired: plan::spec_views(self.desired@),
            released: crate::text::texts(self.released@),
            results: result_views(self.results@),
            stage: self.stage@,
        }
    }
}

impl<S> Applying<S> {
    closed spec fn wf(&self) -> bool {
        &&& self.plans.wf()
        &&& self.desired.wf()
        &&& self.index <= self.plans.ids().len()
    }
}

/// A submission that is under way.
pub enum Pending<S> {
    /// its descriptions are to be brought up to date with what they name
    Refreshing { generation: Generation, endpoints: Vec<DesiredEndpoint<S>> },
    /// its descriptions are to be built
    Building {
        generation: Generation,
        submitted: Vec<DesiredEndpoint<S>>,
        endpoints: Vec<DesiredEndpoint<S>>,
        unrefreshed: IdMap<String>,
    },
    /// its plans are being applied
    Applying(Applying<S>),
}

pub enum PendingView<V> {
    Refreshing { generation: Generation, endpoints: Seq<DesiredView<V>> },
    Building {
        generation: Generation,
        submitted: Seq<DesiredView<V>>,
        endpoints: Seq<DesiredView<V>>,
        unrefreshed: Map<Seq<char>, Seq<char>>,
    },
    Applying(ApplyingView<V>),
}

impl<S: View> View for Pending<S> {
    type V = PendingView<S::V>;

    open spec fn view(&self) -> PendingView<S::V> {
        match self {
            Pending::Refreshing { generation, endpoints } => PendingView::Refreshing {
                generation: *generation,
                endpoints: plan::desired_views(endpoints@),
            },
            Pending::Building { generation, submitted, endpoints, unrefreshed } => PendingView::Building {
                generation: *generation,
                submitted: plan::desired_views(submitted@),
                endpoints: plan::desired_views(endpoints@),
                unrefreshed: plan::text_views(unrefreshed@),
            },
            Pending::Applying(a) => PendingView::Applying(a@),
        }
    }
}

impl<S> Pending<S> {
    /// The maps inside are in order.
    pub closed spec fn wf(&self) -> bool {
        match self {
            Pending::Refreshing { .. } => true,
            Pending::Building { unrefreshed, .. } => unrefreshed.wf(),
            Pending::Applying(a) => a.wf(),
        }
    }
}

/// What has to be found out before a submission can go on.
pub enum Need<S> {
    /// recompute what each description derives from material it only names
    Refresh(Vec<S>),
    /// build the descriptions that are there
    Build(Vec<Option<S>>),
    /// say which tasks have ended
    Poll,
    /// start a listener
    Start(StartRequest),
}

/// What was found out.
pub enum Answer<S> {
    Refreshed(Vec<Result<S, String>>),
    Built(Vec<Result<EndpointSpec, String>>),
    Polled(Vec<TaskId>),
    Started(Result<Bound, String>),
}

pub enum AnswerView<V> {
    Refreshed(Seq<Result<V, Seq<char>>>),
    Built(Seq<Result<EndpointSpecView, Seq<char>>>),
    Polled(Seq<TaskId>),
    Started(Result<Bound, Seq<char>>),
}

pub open spec fn refreshed_view<S: View>(r: Result<S, String>) -> Result<S::V, Seq<char>> {
    match r {
        Ok(s) => Ok(s@),
        Err(e) => Err(e@),
    }
}

impl<S: View> View for Answer<S> {
    type V = AnswerView<S::V>;

    open spec fn view(&self) -> AnswerView<S::V> {
        match self {
            Answer::Refreshed(v) => AnswerView::Refreshed(Seq::new(v@.len(), |i: int| refreshed_view(v@[i]))),
            Answer::Built(v) => AnswerView::Built(plan::built_views(v@)),
            Answer::Polled(v) => AnswerView::Polled(v@),
            Answer::Started(r) => AnswerView::Started(manager::started_view(*r)),
        }
    }
}

/// Where a submission stands after a step.
pub enum Step<S> {
    /// it waits for an answer
    More(Pending<S>),
    /// it is answered, and nothing was changed
    Reply(Result<ReconcileResponse, ReconcileError>),
    /// the generation was applied; the state is to be persisted
    Applied(ReconcileResponse),
}

pub enum StepNext<V> {
    More(PendingView<V>),
    Reply(Result<ResponseView, ErrorView>),
    Applied(ResponseView),
}

impl<S: View> View for Step<S> {
    type V = StepNext<S::V>;

    open spec fn view(&self) -> StepNext<S::V> {
        match self {
            Step::More(p) => StepNext::More(p@),
            Step::Reply(Ok(r)) => StepNext::Reply(Ok(r@)),
            Step::Reply(Err(e)) => StepNext::Reply(Err(e@)),
            Step::Applied(r) => StepNext::Applied(r@),
        }
    }
}

impl<S> Step<S> {
    pub open spec fn wf(&self) -> bool {
        self matches Step::More(p) ==> p.wf()
    }
}

/// State, actions and standing after a step.
pub struct StepView<V> {
    pub reconciler: ReconcilerView<V>,
    pub actions: Seq<Action>,
    pub next: StepNext<V>,
}

impl<V> StepView<V> {
    /// The step with other actions before its own.
    pub open spec fn after(self, actions: Seq<Action>) -> StepView<V> {
        StepView { actions: actions + self.actions, ..self }
    }
}

/// A step that decides without touching anything.
pub open spec fn unmoved<V>(r: ReconcilerView<V>, next: StepNext<V>) -> StepView<V> {
    StepView { reconciler: r, actions: Seq::empty(), next }
}

// -------------------------------------------------------------- submission --

/// Take a submission in: refused before the restore has finished, and when it
/// is older than what is active.
pub open spec fn submitted<V>(
    r: ReconcilerView<V>,
    generation: Generation,
    endpoints: Seq<DesiredView<V>>,
) -> StepView<V> {
    if !r.ready {
        unmoved(r, StepNext::Reply(Err(ErrorView::NotReady)))
    } else if r.active matches Some(active) && generation < active {
        unmoved(r, StepNext::Reply(Err(ErrorView::Stale { active: r.active->0 })))
    } else {
        unmoved(r, StepNext::More(PendingView::Refreshing { generation, endpoints }))
    }
}

pub open spec fn no_refresh() -> Seq<char> {
    "refreshing the endpoint failed: no answer"@
}

/// What refreshing a description gave; without an answer it counts as failed.
pub open spec fn refresh_result<V>(results: Seq<Result<V, Seq<char>>>, i: int) -> Result<V, Seq<char>> {
    if 0 <= i < results.len() {
        results[i]
    } else {
        Err(no_refresh())
    }
}

/// The submitted endpoints with the descriptions that could be refreshed.
pub open spec fn refreshed_endpoints<V>(
    eps: Seq<DesiredView<V>>,
    results: Seq<Result<V, Seq<char>>>,
) -> Seq<DesiredView<V>> {
    Seq::new(
        eps.len(),
        |i: int|
            match refresh_result(results, i) {
                Ok(spec) => DesiredView { id: eps[i].id, spec },
                Err(_) => eps[i],
            },
    )
}

/// Why the first `n` descriptions could not be refreshed; of an id that is
/// submitted twice the later reason stands.
pub open spec fn unrefreshed<V>(
    eps: Seq<DesiredView<V>>,
    results: Seq<Result<V, Seq<char>>>,
    n: int,
) -> Map<Seq<char>, Seq<char>>
    decreases n,
{
    if n <= 0 {
        Map::empty()
    } else {
        match refresh_result(results, n - 1) {
            Ok(_) => unrefreshed(eps, results, n - 1),
            Err(e) => unrefreshed(eps, results, n - 1).insert(eps[n - 1].id, e),
        }
    }
}

/// What is written down for an id, in the order of the submission.
pub open spec fn documents<S: EndpointSource>(eps: Seq<DesiredView<S::V>>, id: Seq<char>) -> Seq<S::Document>
    decreases eps.len(),
{
    if eps.len() == 0 {
        Seq::empty()
    } else {
        let before = documents::<S>(eps.drop_last(), id);
        if eps.last().id == id {
            before.push(S::document(eps.last().spec))
        } else {
            before
        }
    }
}

/// Whether two submissions write down the same, whatever the order of their
/// ids.
pub open spec fn same_content<S: EndpointSource>(a: Seq<DesiredView<S::V>>, b: Seq<DesiredView<S::V>>) -> bool {
    forall|id: Seq<char>| #[trigger] documents::<S>(a, id) == documents::<S>(b, id)
}

/// Whether a description differs from the applied one only in what a document
/// does not show.
pub open spec fn drifted<S: EndpointSource>(applied: Map<Seq<char>, S::V>, e: DesiredView<S::V>) -> bool {
    applied.dom().contains(e.id) && applied[e.id] != e.spec && S::document(applied[e.id]) == S::document(e.spec)
}

/// Whether some endpoint runs on other material than its description now
/// derives.
pub open spec fn material_drifted<S: EndpointSource>(
    applied: Map<Seq<char>, S::V>,
    eps: Seq<DesiredView<S::V>>,
) -> bool {
    exists|i: int| 0 <= i < eps.len() && drifted::<S>(applied, #[trigger] eps[i])
}

/// Judge a submission whose descriptions were refreshed.
///
/// A repeated submission of the active generation replays the first answer, but
/// only when the content matches and the material behind it is what the
/// endpoints run on; otherwise it is a conflict.
pub open spec fn judged<S: EndpointSource>(
    r: ReconcilerView<S::V>,
    generation: Generation,
    submitted: Seq<DesiredView<S::V>>,
    results: Seq<Result<S::V, Seq<char>>>,
) -> StepView<S::V> {
    let endpoints = refreshed_endpoints(submitted, results);
    let unref = unrefreshed(submitted, results, submitted.len() as int);
    if r.active == Some(generation) && unref.dom() =~= Set::empty() && r.last is Some {
        if r.content is Some && same_content::<S>(r.content->0, submitted) && !material_drifted::<S>(
            r.applied,
            endpoints,
        ) {
            unmoved(r, StepNext::Reply(Ok(r.last->0)))
        } else {
            unmoved(r, StepNext::Reply(Err(ErrorView::Stale { active: generation })))
        }
    } else {
        unmoved(r, StepNext::More(PendingView::Building { generation, submitted, endpoints, unrefreshed: unref }))
    }
}

// ------------------------------------------------------------- application --

/// Protocols of an id that are being served, tcp first.
pub open spec fn protos_of(m: ManagerView, id: Seq<char>) -> Seq<Proto> {
    (if m.serving(id, Proto::Tcp) is Some {
        seq![Proto::Tcp]
    } else {
        Seq::empty()
    }) + (if m.serving(id, Proto::Udp) is Some {
        seq![Proto::Udp]
    } else {
        Seq::empty()
    })
}

/// Whether any protocol of an id is being served.
pub open spec fn is_served(m: ManagerView, id: Seq<char>) -> bool {
    m.serving(id, Proto::Tcp) is Some || m.serving(id, Proto::Udp) is Some
}

/// An endpoint left as it is is reported once per protocol it serves.
pub open spec fn unchanged_results(m: ManagerView, id: Seq<char>) -> Seq<ResultView> {
    protos_of(m, id).map_values(
        |proto: Proto|
            ResultView { id, proto, action: SlotAction::Unchanged, error: None, retryable: None },
    )
}

/// An invalid endpoint is reported for each protocol it still serves; one that
/// serves nothing is reported once, under tcp.
pub open spec fn invalid_results(m: ManagerView, id: Seq<char>, error: Seq<char>) -> Seq<ResultView> {
    let protos = if is_served(m, id) {
        protos_of(m, id)
    } else {
        seq![Proto::Tcp]
    };
    protos.map_values(
        |proto: Proto|
            ResultView { id, proto, action: SlotAction::Failed, error: Some(error), retryable: Some(false) },
    )
}

/// The results of an operation on one endpoint.
pub open spec fn outcome_results(id: Seq<char>, outcomes: Seq<SlotOutcomeView>) -> Seq<ResultView> {
    outcomes.map_values(
        |o: SlotOutcomeView|
            ResultView { id, proto: o.proto, action: o.action, error: o.error, retryable: o.retryable },
    )
}

pub open spec fn any_failed(outcomes: Seq<SlotOutcomeView>) -> bool {
    exists|i: int| 0 <= i < outcomes.len() && (#[trigger] outcomes[i]).action == SlotAction::Failed
}

/// The desired state after an endpoint turned out invalid: what is still
/// serving keeps its previous description, what serves nothing has none.
pub open spec fn kept<V>(
    m: ManagerView,
    applied: Map<Seq<char>, V>,
    desired: Map<Seq<char>, V>,
    id: Seq<char>,
) -> Map<Seq<char>, V> {
    if !m.entries.dom().contains(id) {
        desired.remove(id)
    } else if applied.dom().contains(id) {
        desired.insert(id, applied[id])
    } else {
        desired
    }
}

/// Report the endpoints that need nothing done, up to the next one that does.
pub open spec fn skip<V>(m: ManagerView, applied: Map<Seq<char>, V>, a: ApplyingView<V>) -> ApplyingView<V>
    decreases a.order.len() - a.index,
{
    if a.index < 0 || a.index >= a.order.len() {
        a
    } else {
        let id = a.order[a.index];
        match a.plans[id] {
            PlanView::Unchanged => skip(
                m,
                applied,
                ApplyingView { index: a.index + 1, results: a.results + unchanged_results(m, id), ..a },
            ),
            PlanView::Invalid { error } => skip(
                m,
                applied,
                ApplyingView {
                    index: a.index + 1,
                    desired: kept(m, applied, a.desired, id),
                    results: a.results + invalid_results(m, id, error),
                    ..a
                },
            ),
            _ => a,
        }
    }
}

/// Whether a generation was applied in full.
pub open spec fn state_of(results: Seq<ResultView>) -> GenerationState {
    if exists|i: int| 0 <= i < results.len() && (#[trigger] results[i]).action == SlotAction::Failed {
        GenerationState::PartiallyApplied
    } else {
        GenerationState::Applied
    }
}

/// Every plan was applied: the generation becomes the active one.
pub open spec fn concluded<V>(r: ReconcilerView<V>, a: ApplyingView<V>) -> StepView<V> {
    let response = ResponseView { generation: a.generation, state: state_of(a.results), results: a.results };
    StepView {
        reconciler: ReconcilerView {
            applied: a.desired,
            active: Some(a.generation),
            last: Some(response),
            content: Some(a.submitted),
            partial: response.state == GenerationState::PartiallyApplied,
            ..r
        },
        actions: Seq::empty(),
        next: StepNext::Applied(response),
    }
}

/// Go on to the next endpoint that needs something done.
pub open spec fn proceed<V>(r: ReconcilerView<V>, a: ApplyingView<V>) -> StepView<V> {
    let b = skip(r.manager, r.applied, a);
    if b.index >= b.order.len() {
        concluded(r, b)
    } else {
        unmoved(r, StepNext::More(PendingView::Applying(ApplyingView { stage: ApplyStageView::Polling, ..b })))
    }
}

/// The plan of every id: the submitted ones, each on its own and then held
/// against the others, and the ones that go.
pub open spec fn final_plans<V>(
    r: ReconcilerView<V>,
    endpoints: Seq<DesiredView<V>>,
    unref: Map<Seq<char>, Seq<char>>,
    builds: Seq<Result<EndpointSpecView, Seq<char>>>,
) -> Map<Seq<char>, PlanView> {
    plan::with_removals(
        r.manager,
        plan::marked(r.manager, plan::plans_of(r.manager, r.applied, endpoints, unref, builds)),
    )
}

/// Plan a generation whose descriptions were built, release what is contended,
/// and go on to the first endpoint.
pub open spec fn planned<V>(
    r: ReconcilerView<V>,
    generation: Generation,
    submitted: Seq<DesiredView<V>>,
    endpoints: Seq<DesiredView<V>>,
    unref: Map<Seq<char>, Seq<char>>,
    builds: Seq<Result<EndpointSpecView, Seq<char>>>,
) -> StepView<V> {
    let plans = final_plans(r, endpoints, unref, builds);
    let x = plan::all_released(r.manager, plans);
    let a = ApplyingView {
        generation,
        submitted,
        order: crate::idmap::in_order(plans.dom()),
        plans,
        index: 0,
        desired: plan::desired_of(endpoints, unref, builds),
        released: x.released,
        results: Seq::empty(),
        stage: ApplyStageView::Polling,
    };
    proceed(ReconcilerView { manager: x.manager, ..r }, a).after(x.actions)
}

/// The id being applied.
pub open spec fn current<V>(a: ApplyingView<V>) -> Seq<char> {
    a.order[a.index]
}

/// An endpoint failed for good: keep the applied set matching what is really
/// served, and go on.
///
/// An id that kept its old listener stays applied under its previous
/// description, one that is partly up keeps the new one, one left with nothing
/// is dropped so that a later generation retries it.
pub open spec fn given_up<V>(r: ReconcilerView<V>, a: ApplyingView<V>) -> StepView<V> {
    let id = current(a);
    let desired = if is_served(r.manager, id) {
        if r.applied.dom().contains(id) {
            a.desired.insert(id, r.applied[id])
        } else {
            a.desired
        }
    } else {
        a.desired.remove(id)
    };
    proceed(r, ApplyingView { index: a.index + 1, desired, ..a })
}

/// An endpoint is through with being applied.
///
/// If it failed, its old listener was handed over and nothing of it is served
/// anymore, its previous description is built to be put back.
pub open spec fn applied_with<V>(
    r: ReconcilerView<V>,
    a: ApplyingView<V>,
    outcomes: Seq<SlotOutcomeView>,
) -> StepView<V> {
    let id = current(a);
    let b = ApplyingView { results: a.results + outcome_results(id, outcomes), ..a };
    if !any_failed(outcomes) {
        proceed(r, ApplyingView { index: b.index + 1, ..b })
    } else if a.released.contains(id) && !is_served(r.manager, id) && r.applied.dom().contains(id) {
        unmoved(r, StepNext::More(PendingView::Applying(ApplyingView { stage: ApplyStageView::Rebuilding, ..b })))
    } else {
        given_up(r, b)
    }
}

/// Whether an operation reported on a protocol.
pub open spec fn reported(outcomes: Seq<SlotOutcomeView>, proto: Proto) -> bool {
    exists|i: int| 0 <= i < outcomes.len() && (#[trigger] outcomes[i]).proto == proto
}

pub open spec fn noted_error(error: Option<Seq<char>>) -> Seq<char> {
    match error {
        Some(e) => e + " (previous listener restored)"@,
        None => "move failed, previous listener restored"@,
    }
}

/// The failures of an endpoint, once its previous listener is back.
pub open spec fn noted(results: Seq<ResultView>, id: Seq<char>, outcomes: Seq<SlotOutcomeView>) -> Seq<ResultView> {
    results.map_values(
        |x: ResultView|
            if x.id == id && reported(outcomes, x.proto) && x.action == SlotAction::Failed {
                ResultView { error: Some(noted_error(x.error)), ..x }
            } else {
                x
            },
    )
}

/// The previous endpoint is through with being put back.
pub open spec fn restored_with<V>(
    r: ReconcilerView<V>,
    a: ApplyingView<V>,
    outcomes: Seq<SlotOutcomeView>,
) -> StepView<V> {
    if any_failed(outcomes) {
        given_up(r, a)
    } else {
        given_up(r, ApplyingView { results: noted(a.results, current(a), outcomes), ..a })
    }
}

/// Take a step of the endpoint being applied.
pub open spec fn applying_progress<V>(
    r: ReconcilerView<V>,
    a: ApplyingView<V>,
    p: manager::Progress,
) -> StepView<V> {
    let r = ReconcilerView { manager: p.manager, ..r };
    (match p.next {
        NextView::More(op) => unmoved(
            r,
            StepNext::More(PendingView::Applying(ApplyingView { stage: ApplyStageView::Starting(op), ..a })),
        ),
        NextView::Done(outcomes) => applied_with(r, a, outcomes),
    }).after(p.actions)
}

/// Take a step of the previous endpoint being put back.
pub open spec fn restoring_progress<V>(
    r: ReconcilerView<V>,
    a: ApplyingView<V>,
    p: manager::Progress,
) -> StepView<V> {
    let r = ReconcilerView { manager: p.manager, ..r };
    (match p.next {
        NextView::More(op) => unmoved(
            r,
            StepNext::More(PendingView::Applying(ApplyingView { stage: ApplyStageView::Restarting(op), ..a })),
        ),
        NextView::Done(outcomes) => restored_with(r, a, outcomes),
    }).after(p.actions)
}

/// Go on with a generation being applied.
pub open spec fn applying_resumed<V>(
    r: ReconcilerView<V>,
    a: ApplyingView<V>,
    answer: AnswerView<V>,
) -> StepView<V> {
    let id = current(a);
    let b = ApplyingView { stage: ApplyStageView::Polling, ..a };
    match (a.stage, answer) {
        (ApplyStageView::Polling, AnswerView::Polled(finished)) => match a.plans[id] {
            PlanView::Start { built } => applying_progress(
                r,
                b,
                manager::apply_begun(r.manager, id, a.generation, built, finished),
            ),
            PlanView::Replace { built } => applying_progress(
                r,
                b,
                manager::apply_begun(r.manager, id, a.generation, built, finished),
            ),
            PlanView::Delete => {
                let x = manager::removed(r.manager, id, finished);
                proceed(
                    ReconcilerView { manager: x.manager, ..r },
                    ApplyingView {
                        index: a.index + 1,
                        desired: a.desired.remove(id),
                        results: a.results + outcome_results(id, x.outcomes),
                        ..b
                    },
                ).after(x.actions)
            },
            _ => proceed(r, b),
        },
        (ApplyStageView::Starting(op), AnswerView::Started(started)) => applying_progress(
            r,
            b,
            manager::apply_resumed(r.manager, op, started),
        ),
        (ApplyStageView::Rebuilding, AnswerView::Built(builds)) => match plan::build_result(builds, 0) {
            Ok(built) => unmoved(
                r,
                StepNext::More(PendingView::Applying(ApplyingView { stage: ApplyStageView::Repolling(built), ..a })),
            ),
            Err(_) => given_up(r, b),
        },
        (ApplyStageView::Repolling(built), AnswerView::Polled(finished)) => restoring_progress(
            r,
            b,
            manager::apply_begun(r.manager, id, a.generation, built, finished),
        ),
        (ApplyStageView::Restarting(op), AnswerView::Started(started)) => restoring_progress(
            r,
            b,
            manager::apply_resumed(r.manager, op, started),
        ),
        _ => unmoved(r, StepNext::More(PendingView::Applying(a))),
    }
}

/// Go on with a submission. An answer to something that was not asked changes
/// nothing.
pub open spec fn resumed<S: EndpointSource>(
    r: ReconcilerView<S::V>,
    pending: PendingView<S::V>,
    answer: AnswerView<S::V>,
) -> StepView<S::V> {
    match (pending, answer) {
        (PendingView::Refreshing { generation, endpoints }, AnswerView::Refreshed(results)) => judged::<S>(
            r,
            generation,
            endpoints,
            results,
        ),
        (
            PendingView::Building { generation, submitted, endpoints, unrefreshed },
            AnswerView::Built(builds),
        ) => planned(r, generation, submitted, endpoints, unrefreshed, builds),
        (PendingView::Applying(a), answer) => if 0 <= a.index < a.order.len() {
            applying_resumed(r, a, answer)
        } else {
            proceed(r, a)
        },
        (pending, _) => unmoved(r, StepNext::More(pending)),
    }
}

// ----------------------------------------------------------------- content --

/// Where an id is submitted.
fn places<S: EndpointSource>(eps: &Vec<DesiredEndpoint<S>>, id: &str) -> (r: Vec<usize>)
    ensures
        forall|j: int| 0 <= j < r@.len() ==> #[trigger] r@[j] < eps@.len(),
        documents::<S>(plan::desired_views(eps@), id@) == Seq::new(
            r@.len(),
            |j: int| S::document(eps@[r@[j] as int].spec@),
        ),
{
    let ghost all = plan::desired_views(eps@);
    let mut r: Vec<usize> = Vec::new();
    let mut i: usize = 0;
    assert(documents::<S>(all.take(0), id@) =~= Seq::new(r@.len(), |j: int| S::document(eps@[r@[j] as int].spec@)));
    while i < eps.len()
        invariant
            i <= eps@.len(),
            all == plan::desired_views(eps@),
            forall|j: int| 0 <= j < r@.len() ==> #[trigger] r@[j] < i,
            documents::<S>(all.take(i as int), id@) == Seq::new(
                r@.len(),
                |j: int| S::document(eps@[r@[j] as int].spec@),
            ),
        decreases eps@.len() - i,
    {
        let ghost before = r@;
        assert(all.take(i + 1).drop_last() =~= all.take(i as int));
        assert(all.take(i + 1).last() == eps@[i as int]@);
        if same_text(eps[i].id.as_str(), id) {
            r.push(i);
            assert(Seq::new(r@.len(), |j: int| S::document(eps@[r@[j] as int].spec@)) =~= Seq::new(
                before.len(),
                |j: int| S::document(eps@[before[j] as int].spec@),
            ).push(S::document(eps@[i as int].spec@)));
        }
        i = i + 1;
    }
    assert(all.take(i as int) =~= all);
    r
}

fn same_documents<S: EndpointSource>(a: &Vec<DesiredEndpoint<S>>, b: &Vec<DesiredEndpoint<S>>, id: &str) -> (r: bool)
    ensures
        r == (documents::<S>(plan::desired_views(a@), id@) == documents::<S>(plan::desired_views(b@), id@)),
{
    let x = places(a, id);
    let y = places(b, id);
    let ghost da = documents::<S>(plan::desired_views(a@), id@);
    let ghost db = documents::<S>(plan::desired_views(b@), id@);
    if x.len() != y.len() {
        assert(da.len() != db.len());
        return false;
    }
    let mut i: usize = 0;
    while i < x.len()
        invariant
            i <= x@.len(),
            x@.len() == y@.len(),
            forall|j: int| 0 <= j < x@.len() ==> #[trigger] x@[j] < a@.len(),
            forall|j: int| 0 <= j < y@.len() ==> #[trigger] y@[j] < b@.len(),
            da == Seq::new(x@.len(), |j: int| S::document(a@[x@[j] as int].spec@)),
            db == Seq::new(y@.len(), |j: int| S::document(b@[y@[j] as int].spec@)),
            da == documents::<S>(plan::desired_views(a@), id@),
            db == documents::<S>(plan::desired_views(b@), id@),
            forall|j: int| 0 <= j < i ==> #[trigger] da[j] == db[j],
        decreases x@.len() - i,
    {
        if !a[x[i]].spec.serializes_alike(&b[y[i]].spec) {
            assert(da[i as int] != db[i as int]);
            return false;
        }
        assert(da[i as int] == db[i as int]);
        i = i + 1;
    }
    assert(da =~= db);
    true
}

proof fn lemma_absent<S: EndpointSource>(eps: Seq<DesiredView<S::V>>, id: Seq<char>)
    requires
        !plan::occurs(eps, id),
    ensures
        documents::<S>(eps, id) == Seq::<S::Document>::empty(),
    decreases eps.len(),
{
    if eps.len() > 0 {
        let t = eps.drop_last();
        if plan::occurs(t, id) {
            let i = choose|i: int| 0 <= i < t.len() && (#[trigger] t[i]).id == id;
            assert(eps[i].id == id);
        }
        assert(eps[eps.len() - 1].id != id);
        lemma_absent::<S>(t, id);
    }
}

/// Whether two submissions write down the same.
fn has_same_content<S: EndpointSource>(a: &Vec<DesiredEndpoint<S>>, b: &Vec<DesiredEndpoint<S>>) -> (r: bool)
    ensures
        r == same_content::<S>(plan::desired_views(a@), plan::desired_views(b@)),
{
    let ghost va = plan::desired_views(a@);
    let ghost vb = plan::desired_views(b@);
    let mut i: usize = 0;
    while i < a.len()
        invariant
            i <= a@.len(),
            va == plan::desired_views(a@),
            vb == plan::desired_views(b@),
            forall|j: int|
                0 <= j < i ==> documents::<S>(va, (#[trigger] va[j]).id) == documents::<S>(vb, va[j].id),
        decreases a@.len() - i,
    {
        if !same_documents(a, b, a[i].id.as_str()) {
            assert(documents::<S>(va, a@[i as int].id@) != documents::<S>(vb, a@[i as int].id@));
            return false;
        }
        i = i + 1;
    }
    let mut i: usize = 0;
    while i < b.len()
        invariant
            i <= b@.len(),
            va == plan::desired_views(a@),
            vb == plan::desired_views(b@),
            forall|j: int|
                0 <= j < i ==> documents::<S>(va, (#[trigger] vb[j]).id) == documents::<S>(vb, vb[j].id),
        decreases b@.len() - i,
    {
        if !same_documents(a, b, b[i].id.as_str()) {
            assert(documents::<S>(va, b@[i as int].id@) != documents::<S>(vb, b@[i as int].id@));
            return false;
        }
        i = i + 1;
    }
    proof {
        assert forall|id: Seq<char>| #[trigger] documents::<S>(va, id) == documents::<S>(vb, id) by {
            if plan::occurs(va, id) {
                let j = choose|j: int| 0 <= j < va.len() && (#[trigger] va[j]).id == id;
                assert(documents::<S>(va, va[j].id) == documents::<S>(vb, va[j].id));
            } else if plan::occurs(vb, id) {
                let j = choose|j: int| 0 <= j < vb.len() && (#[trigger] vb[j]).id == id;
                assert(documents::<S>(va, vb[j].id) == documents::<S>(vb, vb[j].id));
            } else {
                lemma_absent::<S>(va, id);
                lemma_absent::<S>(vb, id);
            }
        }
    }
    true
}

fn has_drifted<S: EndpointSource>(applied: &IdMap<S>, eps: &Vec<DesiredEndpoint<S>>) -> (r: bool)
    requires
        applied.wf(),
    ensures
        r == material_drifted::<S>(plan::spec_views(applied@), plan::desired_views(eps@)),
{
    let ghost av = plan::spec_views(applied@);
    let ghost ev = plan::desired_views(eps@);
    let mut i: usize = 0;
    while i < eps.len()
        invariant
            i <= eps@.len(),
            applied.wf(),
            av == plan::spec_views(applied@),
            ev == plan::desired_views(eps@),
            forall|j: int| 0 <= j < i ==> !drifted::<S>(av, #[trigger] ev[j]),
        decreases eps@.len() - i,
    {
        if let Some(previous) = applied.get(eps[i].id.as_str()) {
            if !previous.same(&eps[i].spec) && previous.serializes_alike(&eps[i].spec) {
                assert(drifted::<S>(av, ev[i as int]));
                return true;
            }
        }
        assert(!drifted::<S>(av, ev[i as int]));
        i = i + 1;
    }
    false
}

/// The submitted endpoints with the descriptions that could be refreshed, and
/// why the others could not.
fn take_refreshed<S: EndpointSource>(
    eps: &Vec<DesiredEndpoint<S>>,
    results: &Vec<Result<S, String>>,
) -> (r: (Vec<DesiredEndpoint<S>>, IdMap<String>))
    ensures
        r.1.wf(),
        ({
            let rv = Seq::new(results@.len(), |i: int| refreshed_view(results@[i]));
            let ev = plan::desired_views(eps@);
            &&& plan::desired_views(r.0@) == refreshed_endpoints(ev, rv)
            &&& plan::text_views(r.1@) == unrefreshed(ev, rv, ev.len() as int)
        }),
{
    let ghost rv = Seq::new(results@.len(), |i: int| refreshed_view(results@[i]));
    let ghost ev = plan::desired_views(eps@);
    let mut out: Vec<DesiredEndpoint<S>> = Vec::new();
    let mut errors: IdMap<String> = IdMap::new();
    let mut i: usize = 0;
    assert(plan::desired_views(out@) =~= refreshed_endpoints(ev, rv).take(0));
    assert(plan::text_views(errors@) =~= unrefreshed(ev, rv, 0));
    while i < eps.len()
        invariant
            i <= eps@.len(),
            errors.wf(),
            rv == Seq::new(results@.len(), |i: int| refreshed_view(results@[i])),
            ev == plan::desired_views(eps@),
            plan::desired_views(out@) == refreshed_endpoints(ev, rv).take(i as int),
            plan::text_views(errors@) == unrefreshed(ev, rv, i as int),
        decreases eps@.len() - i,
    {
        let id = eps[i].id.clone();
        let ghost before = out@;
        let ghost failed = errors@;
        let mut error: Option<String> = None;
        if i < results.len() {
            match &results[i] {
                Ok(spec) => {
                    out.push(DesiredEndpoint { id: id.clone(), spec: spec.duplicate() });
                },
                Err(e) => {
                    error = Some(e.clone());
                },
            }
        } else {
            error = Some("refreshing the endpoint failed: no answer".to_string());
        }
        if let Some(e) = error {
            out.push(DesiredEndpoint { id: id.clone(), spec: eps[i].spec.duplicate() });
            errors.insert(id, e);
            assert(plan::text_views(errors@) =~= plan::text_views(failed).insert(ev[i as int].id, e@));
        }
        proof {
            assert(plan::desired_views(out@) =~= plan::desired_views(before).push(
                refreshed_endpoints(ev, rv)[i as int],
            ));
            assert(plan::desired_views(out@) =~= refreshed_endpoints(ev, rv).take(i + 1));
        }
        i = i + 1;
    }
    assert(refreshed_endpoints(ev, rv).take(i as int) =~= refreshed_endpoints(ev, rv));
    (out, errors)
}

// ----------------------------------------------------------------- results --

fn push_result(
    out: &mut Vec<EndpointResult>,
    id: &str,
    proto: Proto,
    action: SlotAction,
    error: Option<String>,
    retryable: Option<bool>,
)
    ensures
        result_views(final(out)@) == result_views(old(out)@).push(
            ResultView { id: id@, proto, action, error: crate::text::opt_text(error), retryable },
        ),
{
    let x = EndpointResult { id: id.to_string(), proto, action, error, retryable };
    proof {
        lemma_result_push(out@, x);
    }
    out.push(x);
}

fn push_unchanged(out: &mut Vec<EndpointResult>, manager: &EndpointManager, id: &str)
    requires
        manager.wf(),
    ensures
        result_views(final(out)@) == result_views(old(out)@) + unchanged_results(manager@, id@),
{
    if manager.active_endpoint(id, Proto::Tcp).is_some() {
        push_result(out, id, Proto::Tcp, SlotAction::Unchanged, None, None);
    }
    if manager.active_endpoint(id, Proto::Udp).is_some() {
        push_result(out, id, Proto::Udp, SlotAction::Unchanged, None, None);
    }
    assert(result_views(out@) =~= result_views(old(out)@) + unchanged_results(manager@, id@));
}

fn push_invalid(out: &mut Vec<EndpointResult>, manager: &EndpointManager, id: &str, error: &String)
    requires
        manager.wf(),
    ensures
        result_views(final(out)@) == result_views(old(out)@) + invalid_results(manager@, id@, error@),
{
    let tcp = manager.active_endpoint(id, Proto::Tcp).is_some();
    let udp = manager.active_endpoint(id, Proto::Udp).is_some();
    if tcp || !udp {
        push_result(out, id, Proto::Tcp, SlotAction::Failed, Some(error.clone()), Some(false));
    }
    if udp {
        push_result(out, id, Proto::Udp, SlotAction::Failed, Some(error.clone()), Some(false));
    }
    assert(result_views(out@) =~= result_views(old(out)@) + invalid_results(manager@, id@, error@));
}

/// The results of an operation on one endpoint.
fn into_results(id: &str, outcomes: &Vec<SlotOutcome>, out: &mut Vec<EndpointResult>)
    ensures
        result_views(final(out)@) == result_views(old(out)@) + outcome_results(
            id@,
            types::outcome_views(outcomes@),
        ),
{
    let ghost all = outcome_results(id@, types::outcome_views(outcomes@));
    let mut i: usize = 0;
    assert(result_views(out@) =~= result_views(old(out)@) + all.take(0));
    while i < outcomes.len()
        invariant
            i <= outcomes@.len(),
            all == outcome_results(id@, types::outcome_views(outcomes@)),
            result_views(out@) == result_views(old(out)@) + all.take(i as int),
        decreases outcomes@.len() - i,
    {
        let o = &outcomes[i];
        push_result(out, id, o.proto, o.action, dup_opt(&o.error), o.retryable);
        i = i + 1;
        assert(result_views(out@) =~= result_views(old(out)@) + all.take(i as int));
    }
    assert(all.take(i as int) =~= all);
}

fn has_failed(outcomes: &Vec<SlotOutcome>) -> (r: bool)
    ensures
        r == any_failed(types::outcome_views(outcomes@)),
{
    let ghost v = types::outcome_views(outcomes@);
    let mut i: usize = 0;
    while i < outcomes.len()
        invariant
            i <= outcomes@.len(),
            v == types::outcome_views(outcomes@),
            forall|j: int| 0 <= j < i ==> (#[trigger] v[j]).action != SlotAction::Failed,
        decreases outcomes@.len() - i,
    {
        if outcomes[i].action == SlotAction::Failed {
            assert(v[i as int].action == SlotAction::Failed);
            return true;
        }
        i = i + 1;
    }
    false
}

fn generation_state(results: &Vec<EndpointResult>) -> (r: GenerationState)
    ensures
        r == state_of(result_views(results@)),
{
    let ghost v = result_views(results@);
    let mut i: usize = 0;
    while i < results.len()
        invariant
            i <= results@.len(),
            v == result_views(results@),
            forall|j: int| 0 <= j < i ==> (#[trigger] v[j]).action != SlotAction::Failed,
        decreases results@.len() - i,
    {
        if results[i].action == SlotAction::Failed {
            assert(v[i as int].action == SlotAction::Failed);
            return GenerationState::PartiallyApplied;
        }
        i = i + 1;
    }
    GenerationState::Applied
}

fn has_reported(outcomes: &Vec<SlotOutcome>, proto: Proto) -> (r: bool)
    ensures
        r == reported(types::outcome_views(outcomes@), proto),
{
    let ghost v = types::outcome_views(outcomes@);
    let mut i: usize = 0;
    while i < outcomes.len()
        invariant
            i <= outcomes@.len(),
            v == types::outcome_views(outcomes@),
            forall|j: int| 0 <= j < i ==> (#[trigger] v[j]).proto != proto,
        decreases outcomes@.len() - i,
    {
        if outcomes[i].proto == proto {
            assert(v[i as int].proto == proto);
            return true;
        }
        i = i + 1;
    }
    false
}

/// Note on the failures of an endpoint that its previous listener is back.
fn note_restored(results: &Vec<EndpointResult>, id: &str, outcomes: &Vec<SlotOutcome>) -> (r: Vec<EndpointResult>)
    ensures
        result_views(r@) == noted(result_views(results@), id@, types::outcome_views(outcomes@)),
{
    let ghost all = noted(result_views(results@), id@, types::outcome_views(outcomes@));
    let mut r: Vec<EndpointResult> = Vec::new();
    let mut i: usize = 0;
    assert(result_views(r@) =~= all.take(0));
    while i < results.len()
        invariant
            i <= results@.len(),
            all == noted(result_views(results@), id@, types::outcome_views(outcomes@)),
            result_views(r@) == all.take(i as int),
        decreases results@.len() - i,
    {
        let mut x = results[i].clone();
        if same_text(x.id.as_str(), id) && x.action == SlotAction::Failed && has_reported(outcomes, x.proto) {
            x.error = Some(
                match x.error {
                    Some(e) => {
                        let mut e = e;
                        e.append(" (previous listener restored)");
                        e
                    },
                    None => "move failed, previous listener restored".to_string(),
                },
            );
        }
        proof {
            lemma_result_push(r@, x);
            assert(x@ =~= all[i as int]);
        }
        r.push(x);
        i = i + 1;
        assert(result_views(r@) =~= all.take(i as int));
    }
    assert(all.take(i as int) =~= all);
    r
}

// -------------------------------------------------------------- reconciler --

pub(crate) proof fn lemma_no_actions(a: Seq<Action>)
    ensures
        a + Seq::<Action>::empty() == a,
        Seq::<Action>::empty() + a == a,
{
    assert(a + Seq::<Action>::empty() =~= a);
    assert(Seq::<Action>::empty() + a =~= a);
}

fn is_serving(manager: &EndpointManager, id: &str) -> (r: bool)
    requires
        manager.wf(),
    ensures
        r == is_served(manager@, id@),
{
    manager.active_endpoint(id, Proto::Tcp).is_some() || manager.active_endpoint(id, Proto::Udp).is_some()
}

fn contains_id(ids: &Vec<EndpointId>, id: &str) -> (r: bool)
    ensures
        r == crate::text::texts(ids@).contains(id@),
{
    let ghost v = crate::text::texts(ids@);
    let mut i: usize = 0;
    while i < ids.len()
        invariant
            i <= ids@.len(),
            v == crate::text::texts(ids@),
            forall|j: int| 0 <= j < i ==> #[trigger] v[j] != id@,
        decreases ids@.len() - i,
    {
        if same_text(ids[i].as_str(), id) {
            assert(v[i as int] == id@);
            return true;
        }
        i = i + 1;
    }
    false
}

impl<S: EndpointSource> Reconciler<S> {
    /// The maps inside are in order.
    pub closed spec fn wf(&self) -> bool {
        self.manager.wf() && self.applied.wf()
    }

    /// A reconciler that serves nothing and accepts submissions.
    pub fn new() -> (r: Self)
        ensures
            r.wf(),
            r@ == initial::<S::V>(true, None),
    {
        let r = Reconciler {
            manager: EndpointManager::new(),
            applied: IdMap::new(),
            active: None,
            last: None,
            content: None,
            partial: false,
            ready: true,
            snapshot: None,
        };
        assert(r@.applied =~= Map::empty());
        assert(r@.manager =~= initial::<S::V>(true, None).manager);
        r
    }

    /// Reconciler that refuses submissions until [`Reconciler::set_ready`]
    /// is called, used while a snapshot is being restored.
    pub fn not_ready() -> (r: Self)
        ensures
            r.wf(),
            r@ == initial::<S::V>(false, None),
    {
        let mut r = Reconciler::new();
        r.ready = false;
        r
    }

    /// Reconciler backed by a last-known-good snapshot.
    ///
    /// Starts out not ready: the snapshot must be restored first, so that a
    /// submission arriving during startup is refused as retryable instead of
    /// being applied against an empty state.
    pub fn with_snapshot(store: SnapshotStore) -> (r: Self)
        ensures
            r.wf(),
            r@ == initial::<S::V>(false, Some(store.location())),
    {
        let mut r = Reconciler::new();
        r.ready = false;
        r.snapshot = Some(store);
        r
    }

    /// Mark the process as ready to accept submissions.
    pub fn set_ready(&mut self, ready: bool)
        requires
            old(self).wf(),
        ensures
            final(self).wf(),
            final(self)@ == (ReconcilerView { ready, ..old(self)@ }),
    {
        self.ready = ready;
    }

    /// Whether submissions are taken.
    pub fn is_ready(&self) -> (r: bool)
        ensures
            r == self@.ready,
    {
        self.ready
    }

    /// The generation currently in effect, if any.
    pub fn active_generation(&self) -> (r: Option<Generation>)
        ensures
            r == self@.active,
    {
        self.active
    }

    /// Whether the active generation was only partially applied.
    pub fn is_partial(&self) -> (r: bool)
        ensures
            r == self@.partial,
    {
        self.partial
    }

    /// The desired state currently applied.
    pub fn applied_state(&self) -> (r: &IdMap<S>)
        requires
            self.wf(),
        ensures
            r.wf(),
            plan::spec_views(r@) == self@.applied,
    {
        &self.applied
    }

    /// Live state of every endpoint, knowing which tasks have ended and what
    /// the others report.
    pub fn status(&mut self, finished: &Vec<TaskId>, reports: &Vec<TaskReport>) -> (r: Vec<EndpointStatus>)
        requires
            old(self).wf(),
        ensures
            final(self).wf(),
            final(self)@ == (ReconcilerView {
                manager: manager::refreshed(old(self)@.manager, finished@),
                ..old(self)@
            }),
            manager::status_lists(r@, final(self)@.manager, reports@),
    {
        self.manager.status(finished, reports)
    }

    /// The endpoints themselves.
    pub fn manager(&self) -> (r: &EndpointManager)
        requires
            self.wf(),
        ensures
            r.wf(),
            r@ == self@.manager,
    {
        &self.manager
    }

    /// Access to the underlying manager, for callers that drive single
    /// endpoints.
    pub fn manager_mut(&mut self) -> (r: &mut EndpointManager)
        requires
            old(self).wf(),
        ensures
            r.wf(),
            r@ == old(self)@.manager,
            final(r).wf() ==> final(self).wf(),
            final(self)@ == (ReconcilerView { manager: final(r)@, ..old(self)@ }),
    {
        &mut self.manager
    }

    /// Where the snapshot is, if there is one.
    pub fn store(&self) -> (r: Option<&SnapshotStore>)
        ensures
            match r {
                Some(s) => self@.location == Some(s.location()),
                None => self@.location is None,
            },
    {
        self.snapshot.as_ref()
    }

    /// What is to be written as the last-known-good state, if there is a place
    /// for it.
    pub fn snapshot(&self) -> (r: Option<Snapshot<S>>)
        requires
            self.wf(),
        ensures
            r is Some == self@.location is Some,
            r matches Some(s) ==> s.endpoints.wf() && s@ == snapshot_of(self@),
    {
        if self.snapshot.is_none() {
            return None;
        }
        let generation: u64 = match self.active {
            Some(g) => g,
            None => 0,
        };
        let endpoints = duplicate_map(&self.applied);
        Some(Snapshot { generation, partial: self.partial, endpoints })
    }

    /// Begin to apply a desired state.
    pub fn reconcile(&mut self, request: ReconcileRequest<S>) -> (r: Step<S>)
        requires
            old(self).wf(),
        ensures
            final(self).wf(),
            r.wf(),
            ({
                let x = submitted(old(self)@, request.generation, plan::desired_views(request.endpoints@));
                &&& final(self)@ == x.reconciler
                &&& r@ == x.next
            }),
    {
        if !self.ready {
            return Step::Reply(Err(ReconcileError::NotReady));
        }
        if let Some(active) = self.active {
            if request.generation < active {
                return Step::Reply(Err(ReconcileError::Stale { active }));
            }
        }
        Step::More(Pending::Refreshing { generation: request.generation, endpoints: request.endpoints })
    }

    /// Go on with a submission, knowing what it asked for.
    ///
    /// The actions are to be performed, in order, before the next answer is
    /// sought.
    pub fn resume(&mut self, pending: Pending<S>, answer: Answer<S>, actions: &mut Vec<Action>) -> (r: Step<S>)
        requires
            old(self).wf(),
            pending.wf(),
        ensures
            final(self).wf(),
            r.wf(),
            ({
                let x = resumed::<S>(old(self)@, pending@, answer@);
                &&& final(self)@ == x.reconciler
                &&& final(actions)@ == old(actions)@ + x.actions
                &&& r@ == x.next
            }),
    {
        proof {
            lemma_no_actions(actions@);
        }
        match (pending, answer) {
            (Pending::Refreshing { generation, endpoints }, Answer::Refreshed(results)) => {
                self.judge(generation, endpoints, &results)
            },
            (Pending::Building { generation, submitted, endpoints, unrefreshed }, Answer::Built(builds)) => {
                self.plan(generation, submitted, endpoints, unrefreshed, builds, actions)
            },
            (Pending::Applying(a), answer) => {
                if a.index < a.plans.len() {
                    self.resume_applying(a, answer, actions)
                } else {
                    self.proceed(a)
                }
            },
            (pending, _) => Step::More(pending),
        }
    }

    fn judge(
        &self,
        generation: Generation,
        submitted: Vec<DesiredEndpoint<S>>,
        results: &Vec<Result<S, String>>,
    ) -> (r: Step<S>)
        requires
            self.wf(),
        ensures
            r.wf(),
            r@ == judged::<S>(
                self@,
                generation,
                plan::desired_views(submitted@),
                Seq::new(results@.len(), |i: int| refreshed_view(results@[i])),
            ).next,
    {
        let ghost rv = Seq::new(results@.len(), |i: int| refreshed_view(results@[i]));
        let ghost sv = plan::desired_views(submitted@);
        let (endpoints, unrefreshed) = take_refreshed(&submitted, results);
        let ghost unref = self::unrefreshed(sv, rv, sv.len() as int);
        proof {
            assert(unref.dom() =~= unrefreshed@.dom());
            crate::idmap::law_order_follows_contents(unrefreshed);
            if unrefreshed.ids().len() == 0 {
                assert forall|k: Seq<char>| !unref.dom().contains(k) by {
                    assert(!unrefreshed.has(k)) by {
                        if unrefreshed.has(k) {
                            let i = unrefreshed.lemma_has_position(k);
                        }
                    }
                }
                assert(unref.dom() =~= Set::empty());
            } else {
                unrefreshed.lemma_position(0);
                assert(unref.dom().contains(unrefreshed.ids()[0]));
            }
        }
        if self.active == Some(generation) && unrefreshed.len() == 0 {
            if let Some(last) = &self.last {
                if let Some(content) = &self.content {
                    if has_same_content(content, &submitted) && !has_drifted(&self.applied, &endpoints) {
                        return Step::Reply(Ok(last.clone()));
                    }
                }
                return Step::Reply(Err(ReconcileError::Stale { active: generation }));
            }
        }
        Step::More(Pending::Building { generation, submitted, endpoints, unrefreshed })
    }

    fn plan(
        &mut self,
        generation: Generation,
        submitted: Vec<DesiredEndpoint<S>>,
        endpoints: Vec<DesiredEndpoint<S>>,
        unrefreshed: IdMap<String>,
        builds: Vec<Result<EndpointSpec, String>>,
        actions: &mut Vec<Action>,
    ) -> (r: Step<S>)
        requires
            old(self).wf(),
            unrefreshed.wf(),
        ensures
            final(self).wf(),
            r.wf(),
            ({
                let x = planned(
                    old(self)@,
                    generation,
                    plan::desired_views(submitted@),
                    plan::desired_views(endpoints@),
                    plan::text_views(unrefreshed@),
                    plan::built_views(builds@),
                );
                &&& final(self)@ == x.reconciler
                &&& final(actions)@ == old(actions)@ + x.actions
                &&& r@ == x.next
            }),
    {
        let ghost before = self@;
        let (desired, mut plans) = plan::plan_endpoints(
            &self.manager,
            &self.applied,
            &endpoints,
            &unrefreshed,
            &builds,
        );
        plan::mark_duplicates(&self.manager, &mut plans);
        plan::plan_removals(&self.manager, &mut plans);
        proof {
            crate::idmap::law_order_follows_contents(plans);
            assert(plan::plan_views(plans@).dom() =~= plans@.dom());
        }
        let released = plan::release_contended_addresses(&mut self.manager, &plans, actions);
        let ghost released_actions = actions@;
        let a = Applying {
            generation,
            submitted,
            plans,
            index: 0,
            desired,
            released,
            results: Vec::new(),
            stage: ApplyStage::Polling,
        };
        assert(a@.results =~= Seq::empty());
        proof {
            let x = plan::all_released(before.manager, a@.plans);
            lemma_proceed_is_quiet(ReconcilerView { manager: x.manager, ..before }, a@);
            lemma_no_actions(x.actions);
        }
        self.proceed(a)
    }

    /// Report what needs nothing done, and stop at the next endpoint that does.
    fn proceed(&mut self, a: Applying<S>) -> (r: Step<S>)
        requires
            old(self).wf(),
            a.wf(),
        ensures
            final(self).wf(),
            r.wf(),
            ({
                let x = proceed(old(self)@, a@);
                &&& final(self)@ == x.reconciler
                &&& x.actions == Seq::<Action>::empty()
                &&& r@ == x.next
            }),
    {
        let ghost begun = a@;
        let mut a = a;
        while a.index < a.plans.len()
            invariant
                self.wf(),
                a.wf(),
                self@ == old(self)@,
                skip(self@.manager, self@.applied, begun) == skip(self@.manager, self@.applied, a@),
            ensures
                self.wf(),
                a.wf(),
                self@ == old(self)@,
                skip(self@.manager, self@.applied, begun) == a@,
            decreases a.plans.ids().len() - a.index,
        {
            let id = a.plans.key_at(a.index).clone();
            let ghost here = a@;
            assert(here.plans[here.order[here.index]] == a.plans@[id@]@);
            match a.plans.value_at(a.index) {
                Plan::Unchanged => {
                    push_unchanged(&mut a.results, &self.manager, id.as_str());
                },
                Plan::Invalid { error } => {
                    let error = error.clone();
                    if !self.manager.contains(id.as_str()) {
                        let ghost d = a.desired@;
                        let _ = a.desired.remove(id.as_str());
                        assert(plan::spec_views(a.desired@) =~= plan::spec_views(d).remove(id@));
                    } else if let Some(previous) = self.applied.get(id.as_str()) {
                        let ghost d = a.desired@;
                        let ghost prev = previous@;
                        a.desired.insert(id.clone(), previous.duplicate());
                        assert(plan::spec_views(a.desired@) =~= plan::spec_views(d).insert(id@, prev));
                    }
                    push_invalid(&mut a.results, &self.manager, id.as_str(), &error);
                },
                _ => {
                    break;
                },
            }
            a.index = a.index + 1;
            assert(a@ =~= match here.plans[here.order[here.index]] {
                PlanView::Invalid { error } => ApplyingView {
                    index: here.index + 1,
                    desired: kept(self@.manager, self@.applied, here.desired, id@),
                    results: here.results + invalid_results(self@.manager, id@, error),
                    ..here
                },
                _ => ApplyingView {
                    index: here.index + 1,
                    results: here.results + unchanged_results(self@.manager, id@),
                    ..here
                },
            });
        }
        if a.index < a.plans.len() {
            a.stage = ApplyStage::Polling;
            Step::More(Pending::Applying(a))
        } else {
            self.conclude(a)
        }
    }

    fn conclude(&mut self, a: Applying<S>) -> (r: Step<S>)
        requires
            old(self).wf(),
            a.wf(),
        ensures
            final(self).wf(),
            r.wf(),
            final(self)@ == concluded(old(self)@, a@).reconciler,
            r@ == concluded(old(self)@, a@).next,
    {
        let state = generation_state(&a.results);
        let response = ReconcileResponse { generation: a.generation, state, results: a.results };
        self.applied = a.desired;
        self.active = Some(a.generation);
        self.partial = state == GenerationState::PartiallyApplied;
        self.last = Some(response.clone());
        self.content = Some(a.submitted);
        Step::Applied(response)
    }

    fn give_up(&mut self, a: Applying<S>) -> (r: Step<S>)
        requires
            old(self).wf(),
            a.wf(),
            a@.index < a@.order.len(),
        ensures
            final(self).wf(),
            r.wf(),
            ({
                let x = given_up(old(self)@, a@);
                &&& final(self)@ == x.reconciler
                &&& x.actions == Seq::<Action>::empty()
                &&& r@ == x.next
            }),
    {
        let mut a = a;
        let id = a.plans.key_at(a.index).clone();
        let ghost here = a@;
        let ghost d = a.desired@;
        if is_serving(&self.manager, id.as_str()) {
            if let Some(previous) = self.applied.get(id.as_str()) {
                let ghost prev = previous@;
                a.desired.insert(id.clone(), previous.duplicate());
                assert(plan::spec_views(a.desired@) =~= plan::spec_views(d).insert(id@, prev));
            }
        } else {
            let _ = a.desired.remove(id.as_str());
            assert(plan::spec_views(a.desired@) =~= plan::spec_views(d).remove(id@));
        }
        a.index = a.index + 1;
        self.proceed(a)
    }

    fn finish_apply(&mut self, a: Applying<S>, outcomes: Vec<SlotOutcome>) -> (r: Step<S>)
        requires
            old(self).wf(),
            a.wf(),
            a@.index < a@.order.len(),
        ensures
            final(self).wf(),
            r.wf(),
            ({
                let x = applied_with(old(self)@, a@, types::outcome_views(outcomes@));
                &&& final(self)@ == x.reconciler
                &&& x.actions == Seq::<Action>::empty()
                &&& r@ == x.next
            }),
    {
        let mut a = a;
        let id = a.plans.key_at(a.index).clone();
        into_results(id.as_str(), &outcomes, &mut a.results);
        if !has_failed(&outcomes) {
            a.index = a.index + 1;
            return self.proceed(a);
        }
        // its address may have been released for another endpoint; if its
        // replacement then failed, try to put it back on its original address,
        // so that a swap gone wrong never strands a listener that was serving
        if contains_id(&a.released, id.as_str()) && !is_serving(&self.manager, id.as_str())
            && self.applied.contains(id.as_str()) {
            a.stage = ApplyStage::Rebuilding;
            return Step::More(Pending::Applying(a));
        }
        self.give_up(a)
    }

    fn finish_restore(&mut self, a: Applying<S>, outcomes: Vec<SlotOutcome>) -> (r: Step<S>)
        requires
            old(self).wf(),
            a.wf(),
            a@.index < a@.order.len(),
        ensures
            final(self).wf(),
            r.wf(),
            ({
                let x = restored_with(old(self)@, a@, types::outcome_views(outcomes@));
                &&& final(self)@ == x.reconciler
                &&& x.actions == Seq::<Action>::empty()
                &&& r@ == x.next
            }),
    {
        let mut a = a;
        if !has_failed(&outcomes) {
            let id = a.plans.key_at(a.index).clone();
            a.results = note_restored(&a.results, id.as_str(), &outcomes);
        }
        self.give_up(a)
    }

    fn step_apply(&mut self, a: Applying<S>, next: Next) -> (r: Step<S>)
        requires
            old(self).wf(),
            a.wf(),
            a@.index < a@.order.len(),
        ensures
            final(self).wf(),
            r.wf(),
            ({
                let x = applying_progress(
                    old(self)@,
                    a@,
                    manager::Progress { manager: old(self)@.manager, actions: Seq::empty(), next: next@ },
                );
                &&& final(self)@ == x.reconciler
                &&& x.actions == Seq::<Action>::empty()
                &&& r@ == x.next
            }),
    {
        proof {
            lemma_no_actions(Seq::empty());
        }
        match next {
            Next::More(op) => {
                let mut a = a;
                a.stage = ApplyStage::Starting(op);
                Step::More(Pending::Applying(a))
            },
            Next::Done(outcomes) => self.finish_apply(a, outcomes),
        }
    }

    fn step_restore(&mut self, a: Applying<S>, next: Next) -> (r: Step<S>)
        requires
            old(self).wf(),
            a.wf(),
            a@.index < a@.order.len(),
        ensures
            final(self).wf(),
            r.wf(),
            ({
                let x = restoring_progress(
                    old(self)@,
                    a@,
                    manager::Progress { manager: old(self)@.manager, actions: Seq::empty(), next: next@ },
                );
                &&& final(self)@ == x.reconciler
                &&& x.actions == Seq::<Action>::empty()
                &&& r@ == x.next
            }),
    {
        proof {
            lemma_no_actions(Seq::empty());
        }
        match next {
            Next::More(op) => {
                let mut a = a;
                a.stage = ApplyStage::Restarting(op);
                Step::More(Pending::Applying(a))
            },
            Next::Done(outcomes) => self.finish_restore(a, outcomes),
        }
    }

    fn resume_applying(&mut self, a: Applying<S>, answer: Answer<S>, actions: &mut Vec<Action>) -> (r: Step<S>)
        requires
            old(self).wf(),
            a.wf(),
            a@.index < a@.order.len(),
        ensures
            final(self).wf(),
            r.wf(),
            ({
                let x = applying_resumed(old(self)@, a@, answer@);
                &&& final(self)@ == x.reconciler
                &&& final(actions)@ == old(actions)@ + x.actions
                &&& r@ == x.next
            }),
    {
        proof {
            lemma_no_actions(actions@);
        }
        let Applying { generation, submitted, plans, index, desired, released, results, stage } = a;
        let mut b = Applying {
            generation,
            submitted,
            plans,
            index,
            desired,
            released,
            results,
            stage: ApplyStage::Polling,
        };
        assert(b@ == ApplyingView { stage: ApplyStageView::Polling, ..a@ });
        match (stage, answer) {
            (ApplyStage::Polling, Answer::Polled(finished)) => self.apply_polled(b, &finished, actions),
            (ApplyStage::Starting(op), Answer::Started(started)) => self.apply_started(b, op, started, actions),
            (ApplyStage::Rebuilding, Answer::Built(builds)) => {
                if builds.len() > 0 {
                    if let Ok(built) = &builds[0] {
                        b.stage = ApplyStage::Repolling(built.clone());
                        return Step::More(Pending::Applying(b));
                    }
                }
                self.give_up(b)
            },
            (ApplyStage::Repolling(built), Answer::Polled(finished)) => {
                self.restore_polled(b, built, &finished, actions)
            },
            (ApplyStage::Restarting(op), Answer::Started(started)) => {
                self.restore_started(b, op, started, actions)
            },
            (stage, _) => {
                b.stage = stage;
                Step::More(Pending::Applying(b))
            },
        }
    }

    fn apply_started(
        &mut self,
        a: Applying<S>,
        op: ApplyOp,
        started: Result<Bound, String>,
        actions: &mut Vec<Action>,
    ) -> (r: Step<S>)
        requires
            old(self).wf(),
            a.wf(),
            a@.index < a@.order.len(),
        ensures
            final(self).wf(),
            r.wf(),
            ({
                let p = manager::apply_resumed(old(self)@.manager, op@, manager::started_view(started));
                let x = applying_progress(old(self)@, a@, p);
                &&& final(self)@ == x.reconciler
                &&& final(actions)@ == old(actions)@ + x.actions
                &&& r@ == x.next
            }),
    {
        let ghost p = manager::apply_resumed(self@.manager, op@, manager::started_view(started));
        let next = self.manager.resume(op, started, actions);
        proof {
            lemma_no_actions(p.actions);
        }
        self.step_apply(a, next)
    }

    fn restore_started(
        &mut self,
        a: Applying<S>,
        op: ApplyOp,
        started: Result<Bound, String>,
        actions: &mut Vec<Action>,
    ) -> (r: Step<S>)
        requires
            old(self).wf(),
            a.wf(),
            a@.index < a@.order.len(),
        ensures
            final(self).wf(),
            r.wf(),
            ({
                let p = manager::apply_resumed(old(self)@.manager, op@, manager::started_view(started));
                let x = restoring_progress(old(self)@, a@, p);
                &&& final(self)@ == x.reconciler
                &&& final(actions)@ == old(actions)@ + x.actions
                &&& r@ == x.next
            }),
    {
        let ghost p = manager::apply_resumed(self@.manager, op@, manager::started_view(started));
        let next = self.manager.resume(op, started, actions);
        proof {
            lemma_no_actions(p.actions);
        }
        self.step_restore(a, next)
    }

    fn restore_polled(
        &mut self,
        a: Applying<S>,
        built: EndpointSpec,
        finished: &Vec<TaskId>,
        actions: &mut Vec<Action>,
    ) -> (r: Step<S>)
        requires
            old(self).wf(),
            a.wf(),
            a@.index < a@.order.len(),
        ensures
            final(self).wf(),
            r.wf(),
            ({
                let p = manager::apply_begun(
                    old(self)@.manager,
                    current(a@),
                    a@.generation,
                    built@,
                    finished@,
                );
                let x = restoring_progress(old(self)@, a@, p);
                &&& final(self)@ == x.reconciler
                &&& final(actions)@ == old(actions)@ + x.actions
                &&& r@ == x.next
            }),
    {
        let id = a.plans.key_at(a.index).clone();
        let ghost p = manager::apply_begun(self@.manager, id@, a.generation, built@, finished@);
        let next = self.manager.apply(id, a.generation, built, finished, actions);
        proof {
            lemma_no_actions(p.actions);
        }
        self.step_restore(a, next)
    }

    /// Touch the next endpoint, knowing which tasks have ended.
    fn apply_polled(&mut self, a: Applying<S>, finished: &Vec<TaskId>, actions: &mut Vec<Action>) -> (r: Step<S>)
        requires
            old(self).wf(),
            a.wf(),
            a@.index < a@.order.len(),
            a@.stage is Polling,
        ensures
            final(self).wf(),
            r.wf(),
            ({
                let x = applying_resumed(old(self)@, a@, AnswerView::Polled(finished@));
                &&& final(self)@ == x.reconciler
                &&& final(actions)@ == old(actions)@ + x.actions
                &&& r@ == x.next
            }),
    {
        let ghost before = self@;
        let ghost here = a@;
        let mut a = a;
        let id = a.plans.key_at(a.index).clone();
        proof {
            lemma_no_actions(actions@);
            assert(ApplyingView { stage: ApplyStageView::Polling, ..here } == here);
        }
        let built = match a.plans.value_at(a.index) {
            Plan::Start { built } => Some(built.clone()),
            Plan::Replace { built } => Some(built.clone()),
            Plan::Delete => {
                let outcomes = self.manager.remove(id.as_str(), a.generation, finished, actions);
                let ghost d = a.desired@;
                let _ = a.desired.remove(id.as_str());
                into_results(id.as_str(), &outcomes, &mut a.results);
                a.index = a.index + 1;
                proof {
                    assert(plan::spec_views(a.desired@) =~= plan::spec_views(d).remove(id@));
                    let x = manager::removed(before.manager, id@, finished@);
                    lemma_no_actions(x.actions);
                    lemma_proceed_is_quiet(self@, a@);
                }
                return self.proceed(a);
            },
            _ => None,
        };
        match built {
            Some(built) => {
                let ghost p = manager::apply_begun(before.manager, id@, a.generation, built@, finished@);
                let next = self.manager.apply(id, a.generation, built, finished, actions);
                proof {
                    lemma_no_actions(p.actions);
                }
                self.step_apply(a, next)
            },
            None => self.proceed(a),
        }
    }
}

impl<S: EndpointSource> Reconciler<S> {
    /// What has to be found out before a submission can go on.
    pub fn need(&self, pending: &Pending<S>) -> (r: Need<S>)
        requires
            self.wf(),
            pending.wf(),
        ensures
            r@ == needed(self@, pending@),
    {
        match pending {
            Pending::Refreshing { endpoints, .. } => {
                let mut specs: Vec<S> = Vec::new();
                let mut i: usize = 0;
                while i < endpoints.len()
                    invariant
                        i <= endpoints@.len(),
                        specs@.len() == i,
                        forall|j: int| 0 <= j < i ==> (#[trigger] specs@[j])@ == endpoints@[j].spec@,
                    decreases endpoints@.len() - i,
                {
                    specs.push(endpoints[i].spec.duplicate());
                    i = i + 1;
                }
                let r = Need::Refresh(specs);
                assert(r@->Refresh_0 =~= needed(self@, pending@)->Refresh_0);
                r
            },
            Pending::Building { endpoints, unrefreshed, .. } => {
                let r = Need::Build(plan::descriptions_to_build(endpoints, unrefreshed));
                assert(r@->Build_0 =~= needed(self@, pending@)->Build_0);
                r
            },
            Pending::Applying(a) => match &a.stage {
                ApplyStage::Polling => Need::Poll,
                ApplyStage::Repolling(_) => Need::Poll,
                ApplyStage::Starting(op) => Need::Start(op.awaits()),
                ApplyStage::Restarting(op) => Need::Start(op.awaits()),
                ApplyStage::Rebuilding => {
                    let mut specs: Vec<Option<S>> = Vec::new();
                    if a.index < a.plans.len() {
                        if let Some(previous) = self.applied.get(a.plans.key_at(a.index).as_str()) {
                            specs.push(Some(previous.duplicate()));
                        }
                    }
                    let r = Need::Build(specs);
                    assert(r@->Build_0 =~= needed(self@, pending@)->Build_0);
                    r
                },
            },
        }
    }

    /// Record a description as applied.
    pub(crate) fn adopt(&mut self, id: EndpointId, spec: S)
        requires
            old(self).wf(),
        ensures
            final(self).wf(),
            final(self)@ == (ReconcilerView { applied: old(self)@.applied.insert(id@, spec@), ..old(self)@ }),
    {
        self.applied.insert(id, spec);
        assert(self@.applied =~= old(self)@.applied.insert(id@, spec@));
    }

    /// Record the generation that is in effect.
    pub(crate) fn set_active(&mut self, generation: Generation, partial: bool)
        requires
            old(self).wf(),
        ensures
            final(self).wf(),
            final(self)@ == (ReconcilerView { active: Some(generation), partial, ..old(self)@ }),
    {
        self.active = Some(generation);
        self.partial = partial;
    }

    /// Stop every endpoint, knowing which tasks have ended.
    ///
    /// Used when a process gives up its endpoints deliberately; the snapshot is
    /// left untouched, since it describes the desired state, not the runtime.
    pub fn shutdown(&mut self, finished: &Vec<TaskId>, actions: &mut Vec<Action>)
        requires
            old(self).wf(),
        ensures
            final(self).wf(),
            ({
                let order = crate::idmap::in_order(old(self)@.manager.entries.dom());
                let x = shut_down(old(self)@.manager, order, order.len() as int, finished@);
                &&& final(self)@ == (ReconcilerView { manager: x.manager, ..old(self)@ })
                &&& final(actions)@ == old(actions)@ + x.actions
            }),
            final(self)@.manager.entries == Map::<Seq<char>, manager::EntryView>::empty(),
    {
        let ids = self.manager.ids();
        let ghost m = self@.manager;
        let ghost order = crate::text::texts(ids@);
        let generation: u64 = match self.active {
            Some(g) => g,
            None => 0,
        };
        let mut i: usize = 0;
        proof {
            lemma_no_actions(actions@);
        }
        while i < ids.len()
            invariant
                self.wf(),
                i <= ids@.len(),
                order == crate::text::texts(ids@),
                self@ == (ReconcilerView {
                    manager: shut_down(m, order, i as int, finished@).manager,
                    ..old(self)@
                }),
                actions@ == old(actions)@ + shut_down(m, order, i as int, finished@).actions,
            decreases ids@.len() - i,
        {
            let ghost before = actions@;
            let _ = self.manager.remove(ids[i].as_str(), generation, finished, actions);
            proof {
                let x = shut_down(m, order, i as int, finished@);
                let y = shut_down(m, order, i + 1, finished@);
                assert(order[i as int] == ids@[i as int]@);
                assert(actions@ =~= old(actions)@ + y.actions);
            }
            i = i + 1;
        }
        proof {
            lemma_shut_down(m, order, order.len() as int, finished@);
            assert(self@.manager.entries =~= Map::empty());
        }
    }
}

/// Removing the first `n` ids of a list, one after the other.
pub open spec fn shut_down(m: ManagerView, order: Seq<Seq<char>>, n: int, finished: Seq<TaskId>) -> manager::Removal
    decreases n,
{
    if n <= 0 {
        manager::Removal { manager: m, actions: Seq::empty(), outcomes: Seq::empty() }
    } else {
        let before = shut_down(m, order, n - 1, finished);
        let x = manager::removed(before.manager, order[n - 1], finished);
        manager::Removal {
            manager: x.manager,
            actions: before.actions + x.actions,
            outcomes: before.outcomes + x.outcomes,
        }
    }
}

proof fn lemma_shut_down(m: ManagerView, order: Seq<Seq<char>>, n: int, finished: Seq<TaskId>)
    requires
        crate::idmap::lists(order, m.entries.dom()),
        0 <= n <= order.len(),
    ensures
        forall|k: Seq<char>|
            #[trigger] shut_down(m, order, n, finished).manager.entries.dom().contains(k) ==> order.skip(n).contains(k),
    decreases n,
{
    if n == 0 {
        assert(order.skip(0) =~= order);
    } else {
        lemma_shut_down(m, order, n - 1, finished);
        let before = shut_down(m, order, n - 1, finished);
        assert forall|k: Seq<char>|
            #[trigger] shut_down(m, order, n, finished).manager.entries.dom().contains(k) implies order.skip(
            n,
        ).contains(k) by {
            assert(before.manager.entries.dom().contains(k));
            assert(k != order[n - 1]);
            let rest = order.skip(n - 1);
            assert(rest.contains(k));
            let i = choose|i: int| 0 <= i < rest.len() && rest[i] == k;
            assert(order.skip(n)[i - 1] == k);
        }
    }
}

pub enum NeedView<V> {
    Refresh(Seq<V>),
    Build(Seq<Option<V>>),
    Poll,
    Start(StartRequestView),
}

pub open spec fn opt_spec<S: View>(s: Option<S>) -> Option<S::V> {
    match s {
        Some(s) => Some(s@),
        None => None,
    }
}

impl<S: View> View for Need<S> {
    type V = NeedView<S::V>;

    open spec fn view(&self) -> NeedView<S::V> {
        match self {
            Need::Refresh(v) => NeedView::Refresh(Seq::new(v@.len(), |i: int| v@[i]@)),
            Need::Build(v) => NeedView::Build(Seq::new(v@.len(), |i: int| opt_spec(v@[i]))),
            Need::Poll => NeedView::Poll,
            Need::Start(request) => NeedView::Start(request@),
        }
    }
}

/// What a submission waits for.
pub open spec fn needed<V>(r: ReconcilerView<V>, pending: PendingView<V>) -> NeedView<V> {
    match pending {
        PendingView::Refreshing { endpoints, .. } => NeedView::Refresh(
            Seq::new(endpoints.len(), |i: int| endpoints[i].spec),
        ),
        PendingView::Building { endpoints, unrefreshed, .. } => NeedView::Build(
            Seq::new(
                endpoints.len(),
                |i: int|
                    if plan::to_build(endpoints, unrefreshed, i) {
                        Some(endpoints[i].spec)
                    } else {
                        None
                    },
            ),
        ),
        PendingView::Applying(a) => match a.stage {
            ApplyStageView::Polling => NeedView::Poll,
            ApplyStageView::Repolling(_) => NeedView::Poll,
            ApplyStageView::Starting(op) => NeedView::Start(manager::awaited(op)),
            ApplyStageView::Restarting(op) => NeedView::Start(manager::awaited(op)),
            ApplyStageView::Rebuilding => NeedView::Build(
                if a.index < a.order.len() && r.applied.dom().contains(current(a)) {
                    seq![Some(r.applied[current(a)])]
                } else {
                    Seq::empty()
                },
            ),
        },
    }
}

/// The protocols of a rule, as an id spells them.
pub open spec fn protocols_text(tcp: bool, udp: bool) -> Seq<char> {
    if tcp && udp {
        "tcpudp"@
    } else if udp {
        "udp"@
    } else {
        "tcp"@
    }
}

/// The id derived from a listen address and the protocols of a rule.
pub open spec fn derived_id(laddr: SocketAddr, tcp: bool, udp: bool) -> Seq<char> {
    protocols_text(tcp, udp) + ":"@ + net::addr_text(laddr)
}

/// Stable id derived from a listen address and the protocols of a rule.
///
/// The static mode uses this to submit its configuration as generation 0, and a
/// caller that computes the same id sees its first equivalent submission as
/// unchanged instead of a rebuild. The format is part of the contract:
/// `"<protos>:<listen address>"`, where `<protos>` is `tcp`, `udp` or `tcpudp`.
pub fn derive_id(laddr: &SocketAddr, tcp: bool, udp: bool) -> (r: EndpointId)
    ensures
        r@ == derived_id(*laddr, tcp, udp),
{
    let protos = if tcp && udp {
        "tcpudp"
    } else if udp {
        "udp"
    } else {
        "tcp"
    };
    let mut r = protos.to_string();
    r.append(":");
    r.append(laddr.render().as_str());
    r
}

/// A reconciler that serves nothing.
pub open spec fn initial<V>(ready: bool, location: Option<Seq<char>>) -> ReconcilerView<V> {
    ReconcilerView {
        manager: ManagerView { entries: Map::empty(), policy: types::default_policy() },
        applied: Map::empty(),
        active: None,
        last: None,
        content: None,
        partial: false,
        ready,
        location,
    }
}

/// The last-known-good state.
pub open spec fn snapshot_of<V>(r: ReconcilerView<V>) -> SnapshotView<V> {
    SnapshotView {
        generation: match r.active {
            Some(g) => g,
            None => 0,
        },
        partial: r.partial,
        endpoints: r.applied,
    }
}

/// Going on to the next endpoint asks for nothing to be done.
proof fn lemma_proceed_is_quiet<V>(r: ReconcilerView<V>, a: ApplyingView<V>)
    ensures
        proceed(r, a).actions == Seq::<Action>::empty(),
{
}

fn duplicate_map<S: EndpointSource>(m: &IdMap<S>) -> (r: IdMap<S>)
    requires
        m.wf(),
    ensures
        r.wf(),
        plan::spec_views(r@) == plan::spec_views(m@),
{
    let mut r: IdMap<S> = IdMap::new();
    let mut i: usize = 0;
    while i < m.len()
        invariant
            m.wf(),
            r.wf(),
            i <= m.ids().len(),
            forall|k: Seq<char>| #[trigger] r@.dom().contains(k) == m.ids().take(i as int).contains(k),
            forall|k: Seq<char>| #[trigger] r@.dom().contains(k) ==> r@[k]@ == m@[k]@,
        decreases m.ids().len() - i,
    {
        let id = m.key_at(i).clone();
        let ghost before = r@;
        r.insert(id, m.value_at(i).duplicate());
        proof {
            let a = m.ids().take(i as int);
            let b = m.ids().take(i + 1);
            assert(b =~= a.push(id@));
            assert forall|k: Seq<char>| #[trigger] r@.dom().contains(k) == b.contains(k) by {
                assert(b[i as int] == id@);
                if a.contains(k) {
                    let x = choose|x: int| 0 <= x < a.len() && a[x] == k;
                    assert(b[x] == k);
                }
                if b.contains(k) && k != id@ {
                    let x = choose|x: int| 0 <= x < b.len() && b[x] == k;
                    assert(a[x] == k);
                }
                assert(before.dom().contains(k) == a.contains(k));
            }
        }
        i = i + 1;
    }
    assert(m.ids().take(i as int) =~= m.ids());
    proof {
        assert forall|k: Seq<char>| #[trigger] r@.dom().contains(k) == m@.dom().contains(k) by {
            assert(r@.dom().contains(k) == m.ids().contains(k));
        }
        assert(plan::spec_views(r@) =~= plan::spec_views(m@));
    }
    r
}

} // verus!
