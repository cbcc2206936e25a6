//! Control-plane requests and their answers.
//!
//! The shapes here are the contract a caller programs against: it is versioned,
//! and every error says whether retrying can help.

use vstd::prelude::*;
use vstd::string::*;

use crate::conf::endpoint;
use crate::conf::endpoint::{EndpointConf, EndpointConfView};
use crate::conf::net::NetConf;
use crate::lifecycle::plan;
use crate::lifecycle::plan::{DesiredEndpoint, DesiredView};
use crate::lifecycle::reconcile;
use crate::lifecycle::reconcile::{
    EndpointResult, ErrorView, GenerationState, ReconcileError, ReconcileRequest, ReconcileResponse, ResponseView,
    ResultView,
};
use crate::lifecycle::types::{Proto, SlotAction, SlotState, SlotStateView};
use crate::text;
use crate::text::{push_number, same_text};

verus! {

/// Version of the request and response contract.
pub const SCHEMA_VERSION: u32 = 1;

/// Largest request body accepted, so that the control plane cannot be made to
/// allocate without bound.
pub const MAX_BODY_BYTES: usize = 8388608;

/// What this build can do, for capability probing.
pub open spec fn capability_list() -> Seq<Seq<char>> {
    seq![
        "desired-state-reconcile"@,
        "stable-endpoint-ids"@,
        "per-protocol-results"@,
        "connection-preserving-tcp-update"@,
        "udp-association-rebuild"@,
        "per-endpoint-drain-timeout"@,
        "draining-cohort-status"@,
        "snapshot-restore"@,
    ]
}

pub open spec fn str_views(v: Seq<&'static str>) -> Seq<Seq<char>> {
    Seq::new(v.len(), |i: int| v[i]@)
}

/// What this build can do, for capability probing.
pub fn capabilities() -> (r: Vec<&'static str>)
    ensures
        str_views(r@) == capability_list(),
{
    let mut v: Vec<&'static str> = Vec::new();
    v.push("desired-state-reconcile");
    v.push("stable-endpoint-ids");
    v.push("per-protocol-results");
    v.push("connection-preserving-tcp-update");
    v.push("udp-association-rebuild");
    v.push("per-endpoint-drain-timeout");
    v.push("draining-cohort-status");
    v.push("snapshot-restore");
    assert(str_views(v@) =~= capability_list());
    v
}

// ----------------------------------------------------------------- failures --

/// A request that is refused as a whole.
#[derive(Debug)]
pub struct Failure {
    /// http status code
    pub code: u16,
    pub kind: &'static str,
    /// whether retrying the very same request may succeed
    pub retryable: bool,
    pub message: String,
    pub active_generation: Option<u64>,
}

#[verifier::ext_equal]
pub struct FailureView {
    pub code: u16,
    pub kind: Seq<char>,
    pub retryable: bool,
    pub message: Seq<char>,
    pub active_generation: Option<u64>,
}

impl View for Failure {
    type V = FailureView;

    open spec fn view(&self) -> FailureView {
        FailureView {
            code: self.code,
            kind: self.kind@,
            retryable: self.retryable,
            message: self.message@,
            active_generation: self.active_generation,
        }
    }
}

/// A failure that has nothing to do with generations.
pub open spec fn plain_failure(code: u16, kind: Seq<char>, retryable: bool, message: Seq<char>) -> FailureView {
    FailureView { code, kind, retryable, message, active_generation: None }
}

/// No route for a request.
pub open spec fn unknown_route(method: Seq<char>, path: Seq<char>) -> FailureView {
    plain_failure(404, "unknown-route"@, false, "no route for "@ + method + " "@ + path)
}

/// A method that is used nowhere, on a path that is.
pub open spec fn not_allowed(method: Seq<char>, path: Seq<char>) -> FailureView {
    plain_failure(405, "method-not-allowed"@, false, method + " is not allowed on "@ + path)
}

/// A body that could not be taken in.
pub open spec fn too_large(e: Seq<char>) -> FailureView {
    plain_failure(
        413,
        "request-too-large"@,
        false,
        "request body exceeds "@ + text::decimal(MAX_BODY_BYTES as nat) + " bytes: "@ + e,
    )
}

/// A body that is no desired state.
pub open spec fn malformed(e: Seq<char>) -> FailureView {
    plain_failure(400, "malformed-request"@, false, "cannot parse the desired state: "@ + e)
}

/// A submission that was refused.
pub open spec fn refused(e: ErrorView) -> FailureView {
    let message = reconcile::error_text(e);
    match e {
        ErrorView::Stale { active } => FailureView {
            code: 409,
            kind: "stale-generation"@,
            retryable: false,
            message,
            active_generation: Some(active),
        },
        ErrorView::NotReady => plain_failure(503, "not-ready"@, true, message),
        ErrorView::Internal(_) => plain_failure(500, "internal"@, true, message),
    }
}

/// The answer to a body that could not be taken in, for example because it is
/// over the limit.
pub fn body_failure(e: &str) -> (r: Failure)
    ensures
        r@ == too_large(e@),
{
    let mut message = "request body exceeds ".to_string();
    push_number(&mut message, MAX_BODY_BYTES as u64, 10);
    message.append(" bytes: ");
    message.append(e);
    Failure { code: 413, kind: "request-too-large", retryable: false, message, active_generation: None }
}

/// The answer to a body that is no desired state.
pub fn parse_failure(e: &str) -> (r: Failure)
    ensures
        r@ == malformed(e@),
{
    let mut message = "cannot parse the desired state: ".to_string();
    message.append(e);
    Failure { code: 400, kind: "malformed-request", retryable: false, message, active_generation: None }
}

/// The answer to a submission that was refused.
pub fn reconcile_error(e: &ReconcileError) -> (r: Failure)
    ensures
        r@ == refused(e@),
{
    let message = e.message();
    match e {
        ReconcileError::Stale { active } => Failure {
            code: 409,
            kind: "stale-generation",
            retryable: false,
            message,
            active_generation: Some(*active),
        },
        ReconcileError::NotReady => Failure {
            code: 503,
            kind: "not-ready",
            retryable: true,
            message,
            active_generation: None,
        },
        ReconcileError::Internal(_) => Failure {
            code: 500,
            kind: "internal",
            retryable: true,
            message,
            active_generation: None,
        },
    }
}

// ------------------------------------------------------------------ routing --

/// What a request asks for.
#[derive(Debug, Clone, Copy, PartialEq, Eq, Structural)]
pub enum Route {
    Reconcile,
    Status,
    Readiness,
    Version,
}

/// The route of a request.
pub open spec fn route_of(method: Seq<char>, path: Seq<char>) -> Option<Route> {
    if (method == "PUT"@ || method == "POST"@) && path == "/v1/desired-state"@ {
        Some(Route::Reconcile)
    } else if method == "GET"@ && path == "/v1/status"@ {
        Some(Route::Status)
    } else if method == "GET"@ && path == "/v1/readiness"@ {
        Some(Route::Readiness)
    } else if method == "GET"@ && (path == "/v1/version"@ || path == "/v1/capabilities"@) {
        Some(Route::Version)
    } else {
        None
    }
}

/// Whether a method is used by any route.
pub open spec fn known_method(method: Seq<char>) -> bool {
    method == "GET"@ || method == "PUT"@ || method == "POST"@
}

/// Whether any route is on a path.
pub open spec fn known_path(path: Seq<char>) -> bool {
    ||| path == "/v1/desired-state"@
    ||| path == "/v1/status"@
    ||| path == "/v1/readiness"@
    ||| path == "/v1/version"@
    ||| path == "/v1/capabilities"@
}

/// The answer to a request that has no route.
pub open spec fn no_route(method: Seq<char>, path: Seq<char>) -> FailureView {
    if !known_path(path) || known_method(method) {
        unknown_route(method, path)
    } else {
        not_allowed(method, path)
    }
}

/// The route of a request, or the answer to one that has none.
pub fn route(method: &str, path: &str) -> (r: Result<Route, Failure>)
    ensures
        match r {
            Ok(route) => route_of(method@, path@) == Some(route),
            Err(e) => route_of(method@, path@) is None && e@ == if !known_path(path@) || known_method(method@) {
                unknown_route(method@, path@)
            } else {
                not_allowed(method@, path@)
            },
        },
        r matches Err(e) ==> e@ == no_route(method@, path@),
{
    let get = same_text(method, "GET");
    let submit = same_text(method, "PUT") || same_text(method, "POST");
    let desired = same_text(path, "/v1/desired-state");
    let status = same_text(path, "/v1/status");
    let readiness = same_text(path, "/v1/readiness");
    let version = same_text(path, "/v1/version") || same_text(path, "/v1/capabilities");
    if submit && desired {
        return Ok(Route::Reconcile);
    }
    if get && status {
        return Ok(Route::Status);
    }
    if get && readiness {
        return Ok(Route::Readiness);
    }
    if get && version {
        return Ok(Route::Version);
    }
    if get || submit || !(desired || status || readiness || version) {
        let mut message = "no route for ".to_string();
        message.append(method);
        message.append(" ");
        message.append(path);
        Err(Failure { code: 404, kind: "unknown-route", retryable: false, message, active_generation: None })
    } else {
        let mut message = method.to_string();
        message.append(" is not allowed on ");
        message.append(path);
        Err(Failure { code: 405, kind: "method-not-allowed", retryable: false, message, active_generation: None })
    }
}

// ----------------------------------------------------------------- requests --

/// The endpoints of a submission, normalized against the process-wide options.
pub open spec fn normalized_all(
    v: Seq<DesiredView<EndpointConfView>>,
    global: NetConf,
) -> Seq<DesiredView<EndpointConfView>> {
    Seq::new(v.len(), |i: int| DesiredView { id: v[i].id, spec: endpoint::normalized(v[i].spec, global) })
}

/// The submission a desired state stands for: process-wide network options are
/// filled in before anything is compared.
pub fn submission(
    generation: u64,
    endpoints: Vec<DesiredEndpoint<EndpointConf>>,
    global: &NetConf,
) -> (r: ReconcileRequest<EndpointConf>)
    ensures
        r.generation == generation,
        plan::desired_views(r.endpoints@) == normalized_all(plan::desired_views(endpoints@), *global),
{
    let ghost all = normalized_all(plan::desired_views(endpoints@), *global);
    let mut out: Vec<DesiredEndpoint<EndpointConf>> = Vec::new();
    let mut i: usize = 0;
    assert(plan::desired_views(out@) =~= all.take(0));
    while i < endpoints.len()
        invariant
            i <= endpoints@.len(),
            all == normalized_all(plan::desired_views(endpoints@), *global),
            plan::desired_views(out@) == all.take(i as int),
        decreases endpoints@.len() - i,
    {
        let d = DesiredEndpoint { id: endpoints[i].id.clone(), spec: endpoints[i].spec.normalized(global) };
        let ghost before = out@;
        out.push(d);
        i = i + 1;
        assert(plan::desired_views(out@) =~= plan::desired_views(before).push(d@));
        assert(all.take(i as int) =~= all.take(i - 1).push(all[i - 1]));
    }
    assert(all.take(i as int) =~= all);
    ReconcileRequest { generation, endpoints: out }
}

// ------------------------------------------------------------------ answers --

pub open spec fn proto_text(proto: Proto) -> Seq<char> {
    match proto {
        Proto::Tcp => "tcp"@,
        Proto::Udp => "udp"@,
    }
}

pub open spec fn action_text(action: SlotAction) -> Seq<char> {
    match action {
        SlotAction::Unchanged => "unchanged"@,
        SlotAction::Created => "created"@,
        SlotAction::Updated => "updated"@,
        SlotAction::Draining => "draining"@,
        SlotAction::Deleted => "deleted"@,
        SlotAction::Failed => "failed"@,
    }
}

pub open spec fn state_text(state: SlotStateView) -> Seq<char> {
    match state {
        SlotStateView::Validating => "validating"@,
        SlotStateView::Binding => "binding"@,
        SlotStateView::Running => "running"@,
        SlotStateView::Draining => "draining"@,
        SlotStateView::Stopped => "stopped"@,
        SlotStateView::Failed(_) => "failed"@,
    }
}

pub open spec fn generation_text(partial: bool) -> Seq<char> {
    if partial {
        "partially-applied"@
    } else {
        "applied"@
    }
}

/// How a protocol is written in replies.
pub fn proto_str(proto: Proto) -> (r: &'static str)
    ensures
        r@ == proto_text(proto),
{
    match proto {
        Proto::Tcp => "tcp",
        Proto::Udp => "udp",
    }
}

/// How an action is written in replies.
pub fn action_str(action: SlotAction) -> (r: &'static str)
    ensures
        r@ == action_text(action),
{
    match action {
        SlotAction::Unchanged => "unchanged",
        SlotAction::Created => "created",
        SlotAction::Updated => "updated",
        SlotAction::Draining => "draining",
        SlotAction::Deleted => "deleted",
        SlotAction::Failed => "failed",
    }
}

/// How the state of a slot is written in replies.
pub fn state_str(state: &SlotState) -> (r: &'static str)
    ensures
        r@ == state_text(state@),
{
    match state {
        SlotState::Validating => "validating",
        SlotState::Binding => "binding",
        SlotState::Running => "running",
        SlotState::Draining => "draining",
        SlotState::Stopped => "stopped",
        SlotState::Failed(_) => "failed",
    }
}

/// How the state of the active generation is written in replies.
pub fn generation_str(partial: bool) -> (r: &'static str)
    ensures
        r@ == generation_text(partial),
{
    if partial {
        "partially-applied"
    } else {
        "applied"
    }
}

/// What happened to one `(id, protocol)`, as it is reported.
#[derive(Debug)]
pub struct ResultReport {
    pub id: String,
    pub protocol: &'static str,
    pub action: &'static str,
    pub error: Option<String>,
    /// present only on a failure: whether resubmitting may succeed
    pub retryable: Option<bool>,
}

#[verifier::ext_equal]
pub struct ResultReportView {
    pub id: Seq<char>,
    pub protocol: Seq<char>,
    pub action: Seq<char>,
    pub error: Option<Seq<char>>,
    pub retryable: Option<bool>,
}

impl View for ResultReport {
    type V = ResultReportView;

    open spec fn view(&self) -> ResultReportView {
        ResultReportView {
            id: self.id@,
            protocol: self.protocol@,
            action: self.action@,
            error: text::opt_text(self.error),
            retryable: self.retryable,
        }
    }
}

/// The answer to a submission, as it is reported.
#[derive(Debug)]
pub struct Report {
    pub generation: u64,
    pub state: &'static str,
    pub results: Vec<ResultReport>,
}

#[verifier::ext_equal]
pub struct ReportView {
    pub generation: u64,
    pub state: Seq<char>,
    pub results: Seq<ResultReportView>,
}

impl View for Report {
    type V = ReportView;

    open spec fn view(&self) -> ReportView {
        ReportView { generation: self.generation, state: self.state@, results: result_report_views(self.results@) }
    }
}

pub open spec fn result_report_views(v: Seq<ResultReport>) -> Seq<ResultReportView> {
    Seq::new(v.len(), |i: int| v[i]@)
}

pub open spec fn result_report(r: ResultView) -> ResultReportView {
    ResultReportView {
        id: r.id,
        protocol: proto_text(r.proto),
        action: action_text(r.action),
        error: r.error,
        retryable: r.retryable,
    }
}

pub open spec fn report_of(r: ResponseView) -> ReportView {
    ReportView {
        generation: r.generation,
        state: generation_text(r.state is PartiallyApplied),
        results: Seq::new(r.results.len(), |i: int| result_report(r.results[i])),
    }
}

fn report_result(r: &EndpointResult) -> (x: ResultReport)
    ensures
        x@ == result_report(r@),
{
    ResultReport {
        id: r.id.clone(),
        protocol: proto_str(r.proto),
        action: action_str(r.action),
        error: text::dup_opt(&r.error),
        retryable: r.retryable,
    }
}

/// The answer to a submission, as it is reported.
pub fn report(response: &ReconcileResponse) -> (r: Report)
    ensures
        r@ == report_of(response@),
{
    let ghost all = report_of(response@).results;
    let mut results: Vec<ResultReport> = Vec::new();
    let mut i: usize = 0;
    assert(result_report_views(results@) =~= all.take(0));
    while i < response.results.len()
        invariant
            i <= response.results@.len(),
            all == report_of(response@).results,
            result_report_views(results@) == all.take(i as int),
        decreases response.results@.len() - i,
    {
        let x = report_result(&response.results[i]);
        let ghost before = results@;
        results.push(x);
        i = i + 1;
        assert(result_report_views(results@) =~= result_report_views(before).push(x@));
        assert(all.take(i as int) =~= all.take(i - 1).push(all[i - 1]));
    }
    assert(all.take(i as int) =~= all);
    let partial = match response.state {
        GenerationState::Applied => false,
        GenerationState::PartiallyApplied => true,
    };
    Report { generation: response.generation, state: generation_str(partial), results }
}

// --------------------------------------------------------------------- laws --

/// A refused submission is answered as retryable exactly if the error is one
/// that retrying can help with, and only a stale one names the active generation.
pub proof fn law_refusals_say_whether_to_retry(e: ReconcileError)
    ensures
        refused(e@).retryable == !(e is Stale),
        refused(e@).active_generation is Some <==> e is Stale,
        e matches ReconcileError::Stale { active } ==> refused(e@).active_generation == Some(active),
{
}

/// Whatever a request is refused for, retrying it can help exactly if the fault
/// is on this side: with a status code of 500 and above.
pub proof fn law_retryable_means_server_side(e: ErrorView, method: Seq<char>, path: Seq<char>, why: Seq<char>)
    ensures
        refused(e).retryable <==> refused(e).code >= 500,
        !unknown_route(method, path).retryable && unknown_route(method, path).code < 500,
        !not_allowed(method, path).retryable && not_allowed(method, path).code < 500,
        !too_large(why).retryable && too_large(why).code < 500,
        !malformed(why).retryable && malformed(why).code < 500,
{
}

/// Normalizing what was normalized changes nothing, so a caller that resubmits
/// what it read back submits the same.
pub proof fn law_submission_is_idempotent(v: Seq<DesiredView<EndpointConfView>>, global: NetConf)
    ensures
        normalized_all(normalized_all(v, global), global) == normalized_all(v, global),
{
    assert forall|i: int| 0 <= i < v.len() implies #[trigger] normalized_all(normalized_all(v, global), global)[i]
        == normalized_all(v, global)[i] by {
        endpoint::law_normalizing_is_idempotent(v[i].spec, global);
    }
    assert(normalized_all(normalized_all(v, global), global) =~= normalized_all(v, global));
}

} // verus!
