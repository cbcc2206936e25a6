//! How the process starts: from the state it last served, or from its static
//! configuration.

use vstd::prelude::*;

use crate::conf::endpoint;
use crate::conf::endpoint::{EndpointConf, EndpointConfView, Lookups};
use crate::conf::net::NetConf;
use crate::io::IoError;
use crate::lifecycle::plan::{DesiredEndpoint, DesiredView, EndpointSource};
use crate::lifecycle::reconcile;
use crate::lifecycle::reconcile::{derive_id, ReconcileRequest, Reconciler, ReconcilerView};
use crate::lifecycle::snapshot::RestoreOutcome;

verus! {

/// Generation of the static configuration.
pub const STATIC_GENERATION: u64 = 0;

/// The endpoint a rule of the static configuration stands for: its id is derived
/// from its listen address and protocols, so that a caller that computes the same
/// id sees its first equivalent submission as unchanged.
pub open spec fn static_endpoint_of(
    c: EndpointConfView,
    global: NetConf,
    x: Lookups,
) -> Result<DesiredView<EndpointConfView>, Seq<char>> {
    let normal = endpoint::normalized(c, global);
    match endpoint::spec_of(normal, x) {
        Ok(s) => Ok(DesiredView { id: reconcile::derived_id(s.endpoint.laddr, s.tcp, s.udp), spec: normal }),
        Err(e) => Err(e),
    }
}

/// The endpoint a rule of the static configuration stands for, knowing what was
/// looked up for the rule.
pub fn static_endpoint(
    conf: &EndpointConf,
    global: &NetConf,
    lookups: &Lookups,
) -> (r: Result<DesiredEndpoint<EndpointConf>, String>)
    ensures
        (match r {
            Ok(d) => Ok(d@),
            Err(e) => Err(e@),
        }) == static_endpoint_of(conf@, *global, *lookups),
{
    let conf = conf.normalized(global);
    match conf.build_spec(lookups) {
        Ok(spec) => {
            let id = derive_id(&spec.endpoint.laddr, spec.tcp, spec.udp);
            Ok(DesiredEndpoint { id, spec: conf })
        },
        Err(e) => Err(e),
    }
}

/// Where the process starts from.
#[derive(Debug)]
pub enum Startup<S> {
    /// the state it last served was brought back
    Restored(RestoreOutcome),
    /// the static configuration is to be submitted
    Static(ReconcileRequest<S>),
}

/// Where the process starts from, once a restore was tried.
///
/// A snapshot describes what this node was serving when it last ran, which is
/// newer than the static configuration; without one the static configuration is
/// the starting point. A snapshot that cannot be read must not keep the process
/// from forwarding: it falls back to the static configuration.
pub fn starting_point<S: EndpointSource>(
    reconciler: &mut Reconciler<S>,
    restored: Result<RestoreOutcome, IoError>,
    endpoints: Vec<DesiredEndpoint<S>>,
) -> (r: Startup<S>)
    requires
        old(reconciler).wf(),
    ensures
        final(reconciler).wf(),
        final(reconciler)@ == (ReconcilerView {
            ready: old(reconciler)@.ready || restored is Err,
            ..old(reconciler)@
        }),
        match r {
            Startup::Restored(o) => restored == Ok::<RestoreOutcome, IoError>(o) && o.generation is Some,
            Startup::Static(q) => {
                &&& restored is Err || restored->Ok_0.generation is None
                &&& q.generation == STATIC_GENERATION
                &&& q.generation == 0
                &&& q.endpoints == endpoints
            },
        },
{
    match restored {
        Ok(outcome) => {
            if outcome.generation.is_some() {
                return Startup::Restored(outcome);
            }
        },
        Err(_) => {
            reconciler.set_ready(true);
        },
    }
    Startup::Static(ReconcileRequest { generation: STATIC_GENERATION, endpoints })
}

/// Taking over from the static configuration moves no traffic: a caller that
/// submits, under the same id, a description that normalizes to the same as the
/// static rule submits exactly what the static rule stands for.
pub proof fn law_equivalent_takeover_is_the_same(
    ours: EndpointConfView,
    theirs: EndpointConfView,
    global: NetConf,
    x: Lookups,
)
    requires
        endpoint::normalized(ours, global) == endpoint::normalized(theirs, global),
    ensures
        static_endpoint_of(ours, global, x) == static_endpoint_of(theirs, global, x),
        static_endpoint_of(endpoint::normalized(ours, global), global, x) == static_endpoint_of(ours, global, x),
        static_endpoint_of(ours, global, x) matches Ok(d) ==> d.spec == endpoint::normalized(theirs, global),
{
    endpoint::law_normalizing_is_idempotent(ours, global);
}

} // verus!
