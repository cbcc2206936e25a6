//! What the control plane answers, field by field.

use vstd::prelude::*;

use crate::conf::endpoint;
use crate::conf::endpoint::EndpointConfView;
use crate::conf::net::NetConf;
use crate::control::api;
use crate::control::api::Route;
use crate::control::socket;
use crate::control::status;
use crate::lifecycle::plan::DesiredView;
use crate::lifecycle::reconcile::{ErrorView, GenerationState, ResponseView};
use crate::lifecycle::types::{EndpointStatusView, Proto, SlotAction, SlotStateView, SlotStatusView};
use crate::net;
use crate::net::IpAddr;
use crate::process::ProcessSettingsView;
use crate::text;

verus! {

// ------------------------------------------------------------------ routes --

/// A desired state is submitted with `PUT` or `POST`, and everything else is asked
/// for with `GET`, each on its own path. No other request has a route.
pub proof fn law_requests_that_have_a_route(method: Seq<char>, path: Seq<char>)
    ensures
        ({
            let r = api::route_of(method, path);
            let get = method == "GET"@;
            let submit = method == "PUT"@ || method == "POST"@;
            &&& r == Some(Route::Reconcile) <==> submit && path == "/v1/desired-state"@
            &&& r == Some(Route::Status) <==> get && path == "/v1/status"@
            &&& r == Some(Route::Readiness) <==> get && path == "/v1/readiness"@
            &&& r == Some(Route::Version) <==> get && (path == "/v1/version"@ || path == "/v1/capabilities"@)
        }),
{
    reveal_strlit("GET");
    reveal_strlit("PUT");
    reveal_strlit("POST");
    assert("GET"@[0] == 'G' && "PUT"@[0] == 'P' && "POST"@[0] == 'P');
    reveal_strlit("/v1/status");
    reveal_strlit("/v1/readiness");
    reveal_strlit("/v1/version");
    reveal_strlit("/v1/capabilities");
    assert("/v1/status"@[4] == 's' && "/v1/readiness"@[4] == 'r');
    assert("/v1/version"@[4] == 'v' && "/v1/capabilities"@[4] == 'c');
}

/// A path that has a route for some method is known, and so is a method that has a
/// route for some path. No other is.
pub proof fn law_known_is_what_has_a_route(method: Seq<char>, path: Seq<char>)
    ensures
        api::route_of(method, path) is Some ==> api::known_method(method) && api::known_path(path),
        api::known_path(path) ==> api::route_of("GET"@, path) is Some || api::route_of("PUT"@, path) is Some,
        api::known_method(method) ==> api::route_of(method, "/v1/status"@) is Some || api::route_of(
            method,
            "/v1/desired-state"@,
        ) is Some,
{
}

/// A path that no request has is not found, whatever the method. On one that some
/// request has, a method that is used elsewhere is not found there, and one that is
/// used nowhere is not allowed.
pub proof fn law_requests_without_a_route(method: Seq<char>, path: Seq<char>)
    ensures
        ({
            let e = api::no_route(method, path);
            let used = method == "GET"@ || method == "PUT"@ || method == "POST"@;
            let there = path == "/v1/desired-state"@ || path == "/v1/status"@ || path == "/v1/readiness"@ || path
                == "/v1/version"@ || path == "/v1/capabilities"@;
            &&& !there || used ==> e.code == 404 && e.kind == "unknown-route"@ && e.message == "no route for "@ + method
                + " "@ + path
            &&& there && !used ==> e.code == 405 && e.kind == "method-not-allowed"@ && e.message == method
                + " is not allowed on "@ + path
            &&& !e.retryable
        }),
{
}

/// How requests are refused: with a status code and a kind, and a message that
/// names what was asked for or what went wrong. Only a stale submission names the
/// active generation.
pub proof fn law_refusals_are_spelled_out(
    method: Seq<char>,
    path: Seq<char>,
    why: Seq<char>,
    active: u64,
)
    ensures
        ({
            let e = api::unknown_route(method, path);
            &&& e.code == 404 && e.kind == "unknown-route"@ && !e.retryable && e.active_generation is None
            &&& e.message == "no route for "@ + method + " "@ + path
        }),
        ({
            let e = api::not_allowed(method, path);
            &&& e.code == 405 && e.kind == "method-not-allowed"@ && !e.retryable && e.active_generation is None
            &&& e.message == method + " is not allowed on "@ + path
        }),
        ({
            let e = api::too_large(why);
            &&& e.code == 413 && e.kind == "request-too-large"@ && !e.retryable && e.active_generation is None
            &&& e.message == "request body exceeds "@ + text::decimal(8388608) + " bytes: "@ + why
        }),
        ({
            let e = api::malformed(why);
            &&& e.code == 400 && e.kind == "malformed-request"@ && !e.retryable && e.active_generation is None
            &&& e.message == "cannot parse the desired state: "@ + why
        }),
        ({
            let e = api::refused(ErrorView::Stale { active });
            &&& e.code == 409 && e.kind == "stale-generation"@ && !e.retryable && e.active_generation == Some(active)
            &&& e.message == "stale generation, active generation is "@ + text::decimal(active as nat)
        }),
        ({
            let e = api::refused(ErrorView::NotReady);
            &&& e.code == 503 && e.kind == "not-ready"@ && e.retryable && e.active_generation is None
            &&& e.message == "not ready: snapshot restore has not finished"@
        }),
        ({
            let e = api::refused(ErrorView::Internal(why));
            &&& e.code == 500 && e.kind == "internal"@ && e.retryable && e.active_generation is None
            &&& e.message == "internal error: "@ + why
        }),
{
}

/// A submission takes every endpoint in, in order and under its id, with the
/// process-wide options filled in where the endpoint gives none.
pub proof fn law_submission_takes_every_endpoint_in(v: Seq<DesiredView<EndpointConfView>>, global: NetConf, i: int)
    ensures
        api::normalized_all(v, global).len() == v.len(),
        0 <= i < v.len() ==> api::normalized_all(v, global)[i].id == v[i].id && api::normalized_all(v, global)[i].spec
            == endpoint::normalized(v[i].spec, global),
{
}

// ------------------------------------------------------------------- names --

/// How protocols, actions, states and generations are written in replies.
pub proof fn law_names_in_replies(e: Seq<char>)
    ensures
        api::proto_text(Proto::Tcp) == "tcp"@,
        api::proto_text(Proto::Udp) == "udp"@,
        api::action_text(SlotAction::Unchanged) == "unchanged"@,
        api::action_text(SlotAction::Created) == "created"@,
        api::action_text(SlotAction::Updated) == "updated"@,
        api::action_text(SlotAction::Draining) == "draining"@,
        api::action_text(SlotAction::Deleted) == "deleted"@,
        api::action_text(SlotAction::Failed) == "failed"@,
        api::state_text(SlotStateView::Validating) == "validating"@,
        api::state_text(SlotStateView::Binding) == "binding"@,
        api::state_text(SlotStateView::Running) == "running"@,
        api::state_text(SlotStateView::Draining) == "draining"@,
        api::state_text(SlotStateView::Stopped) == "stopped"@,
        api::state_text(SlotStateView::Failed(e)) == "failed"@,
        api::generation_text(true) == "partially-applied"@,
        api::generation_text(false) == "applied"@,
{
}

/// No two actions are written alike, and no two protocols.
pub proof fn law_names_tell_actions_apart(a: SlotAction, b: SlotAction, p: Proto, q: Proto)
    ensures
        api::action_text(a) == api::action_text(b) ==> a == b,
        api::proto_text(p) == api::proto_text(q) ==> p == q,
{
    reveal_strlit("tcp");
    reveal_strlit("udp");
    assert("tcp"@[0] == 't' && "udp"@[0] == 'u');
    reveal_strlit("unchanged");
    reveal_strlit("created");
    reveal_strlit("updated");
    reveal_strlit("draining");
    reveal_strlit("deleted");
    reveal_strlit("failed");
    assert("unchanged"@[1] == 'n' && "updated"@[1] == 'p' && "created"@[1] == 'r');
    assert("draining"@[0] == 'd' && "draining"@[1] == 'r' && "created"@[0] == 'c');
    assert("deleted"@[1] == 'e' && "failed"@[1] == 'a');
}

// ----------------------------------------------------------------- answers --

/// The answer to a submission reports its generation, whether it was applied in
/// full, and each result in order, under its id and protocol, with what happened,
/// why it failed and whether a retry can help.
pub proof fn law_answer_reports_every_result(r: ResponseView, i: int)
    ensures
        ({
            let x = api::report_of(r);
            &&& x.generation == r.generation
            &&& r.state == GenerationState::Applied ==> x.state == "applied"@
            &&& r.state == GenerationState::PartiallyApplied ==> x.state == "partially-applied"@
            &&& x.results.len() == r.results.len()
            &&& 0 <= i < r.results.len() ==> {
                &&& x.results[i].id == r.results[i].id
                &&& r.results[i].proto == Proto::Tcp ==> x.results[i].protocol == "tcp"@
                &&& r.results[i].proto == Proto::Udp ==> x.results[i].protocol == "udp"@
                &&& x.results[i].action == api::action_text(r.results[i].action)
                &&& x.results[i].error == r.results[i].error
                &&& x.results[i].retryable == r.results[i].retryable
            }
        }),
{
}

/// The report of a slot shows its protocol, state and generation, the address it
/// listens on, its connections and its cohorts; the reason of a failure is its
/// error.
pub proof fn law_slot_report_shows_the_slot(s: SlotStatusView)
    ensures
        ({
            let x = status::slot_report(s);
            &&& s.proto == Proto::Tcp ==> x.protocol == "tcp"@
            &&& s.proto == Proto::Udp ==> x.protocol == "udp"@
            &&& x.state == api::state_text(s.state)
            &&& s.state matches SlotStateView::Failed(e) ==> x.error == Some(e)
            &&& !(s.state is Failed) ==> x.error is None
            &&& x.generation == s.generation
            &&& s.laddr matches Some(a) ==> x.listen == Some(net::addr_text(a))
            &&& s.laddr is None ==> x.listen is None
            &&& x.connections == s.connections
            &&& x.draining == s.draining
        }),
{
}

/// The report of an endpoint shows its id and each of its slots, in order.
pub proof fn law_endpoint_report_shows_every_slot(s: EndpointStatusView, i: int)
    ensures
        status::endpoint_report(s).id == s.id,
        status::endpoint_report(s).slots.len() == s.slots.len(),
        0 <= i < s.slots.len() ==> status::endpoint_report(s).slots[i] == status::slot_report(s.slots[i]),
{
}

/// The report of the process shows each setting in its own place, the soft limit
/// on open files before the hard one, and the name servers in order.
pub proof fn law_process_report_shows_every_setting(
    version: Seq<char>,
    features: Seq<char>,
    nameservers: Option<Vec<IpAddr>>,
    s: ProcessSettingsView,
    i: int,
)
    ensures
        ({
            let x = status::process_report(version, features, nameservers, s);
            &&& x.version == version
            &&& x.features == features
            &&& x.log_level == s.log_level
            &&& x.log_output == s.log_output
            &&& s.nofile matches Some(n) ==> x.nofile_soft == Some(n.0) && x.nofile_hard == Some(n.1)
            &&& s.nofile is None ==> x.nofile_soft is None && x.nofile_hard is None
            &&& x.pipe_page == s.pipe_page
            &&& x.pre_conn_hook == s.pre_conn_hook
            &&& nameservers is None ==> x.nameservers is None
            &&& nameservers matches Some(v) ==> {
                &&& x.nameservers matches Some(w)
                &&& w.len() == v@.len()
                &&& 0 <= i < w.len() ==> w[i] == net::ip_text(v@[i])
            }
        }),
{
}

// ------------------------------------------------------------------ socket --

/// A mode is shared exactly if its last two digits, for the group and for others,
/// are not both zero; what the socket is made with is not shared, and lets its
/// owner do everything.
pub proof fn law_shared_is_anyone_but_the_owner(mode: u32)
    ensures
        socket::shared(mode) <==> mode % 64 != 0,
        !socket::shared(socket::OWNER_ONLY),
        socket::OWNER_ONLY == 7 * 64,
{
    assert(mode & 0x3f == mode % 64) by (bit_vector);
    assert(0x1c0u32 & 0x3fu32 == 0) by (bit_vector);
}

/// The limits of the control plane: a body of 8 mebibytes, and 5 seconds for the
/// headers of a request.
pub proof fn law_limits_of_the_control_plane()
    ensures
        api::MAX_BODY_BYTES == 8 * 1024 * 1024,
        socket::HEADER_READ_TIMEOUT == 5,
        api::SCHEMA_VERSION == 1,
{
}

/// What this build says it can do.
pub proof fn law_capabilities_of_the_build()
    ensures
        ({
            let c = api::capability_list();
            &&& c.len() == 8
            &&& c.contains("desired-state-reconcile"@)
            &&& c.contains("stable-endpoint-ids"@)
            &&& c.contains("per-protocol-results"@)
            &&& c.contains("connection-preserving-tcp-update"@)
            &&& c.contains("udp-association-rebuild"@)
            &&& c.contains("per-endpoint-drain-timeout"@)
            &&& c.contains("draining-cohort-status"@)
            &&& c.contains("snapshot-restore"@)
        }),
{
    let c = api::capability_list();
    assert(c[0] == "desired-state-reconcile"@);
    assert(c[1] == "stable-endpoint-ids"@);
    assert(c[2] == "per-protocol-results"@);
    assert(c[3] == "connection-preserving-tcp-update"@);
    assert(c[4] == "udp-association-rebuild"@);
    assert(c[5] == "per-endpoint-drain-timeout"@);
    assert(c[6] == "draining-cohort-status"@);
    assert(c[7] == "snapshot-restore"@);
}

} // verus!
