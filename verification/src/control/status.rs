//! What the control plane reports of the process and its endpoints.

use vstd::prelude::*;

use crate::control::api;
use crate::control::api::{generation_str, proto_str, state_str};
use crate::lifecycle::types::{
    DrainingStatus, EndpointStatus, EndpointStatusView, SlotState, SlotStateView, SlotStatus, SlotStatusView,
};
use crate::net;
use crate::net::IpAddr;
use crate::process::{ProcessSettings, ProcessSettingsView};
use crate::text;
use crate::text::dup_opt;

verus! {

// ---------------------------------------------------------------- endpoints --

/// State of one `(id, protocol)` slot, as it is reported.
#[derive(Debug)]
pub struct SlotReport {
    pub protocol: &'static str,
    pub state: &'static str,
    pub error: Option<String>,
    pub generation: u64,
    pub listen: Option<String>,
    pub connections: usize,
    pub draining: Vec<DrainingStatus>,
}

#[verifier::ext_equal]
pub struct SlotReportView {
    pub protocol: Seq<char>,
    pub state: Seq<char>,
    pub error: Option<Seq<char>>,
    pub generation: u64,
    pub listen: Option<Seq<char>>,
    pub connections: usize,
    pub draining: Seq<DrainingStatus>,
}

impl View for SlotReport {
    type V = SlotReportView;

    open spec fn view(&self) -> SlotReportView {
        SlotReportView {
            protocol: self.protocol@,
            state: self.state@,
            error: text::opt_text(self.error),
            generation: self.generation,
            listen: text::opt_text(self.listen),
            connections: self.connections,
            draining: self.draining@,
        }
    }
}

/// State of one endpoint, as it is reported.
#[derive(Debug)]
pub struct EndpointReport {
    pub id: String,
    pub slots: Vec<SlotReport>,
}

#[verifier::ext_equal]
pub struct EndpointReportView {
    pub id: Seq<char>,
    pub slots: Seq<SlotReportView>,
}

pub open spec fn slot_report_views(v: Seq<SlotReport>) -> Seq<SlotReportView> {
    Seq::new(v.len(), |i: int| v[i]@)
}

impl View for EndpointReport {
    type V = EndpointReportView;

    open spec fn view(&self) -> EndpointReportView {
        EndpointReportView { id: self.id@, slots: slot_report_views(self.slots@) }
    }
}

pub open spec fn slot_report(s: SlotStatusView) -> SlotReportView {
    SlotReportView {
        protocol: api::proto_text(s.proto),
        state: api::state_text(s.state),
        error: match s.state {
            SlotStateView::Failed(e) => Some(e),
            _ => None,
        },
        generation: s.generation,
        listen: match s.laddr {
            Some(a) => Some(net::addr_text(a)),
            None => None,
        },
        connections: s.connections,
        draining: s.draining,
    }
}

pub open spec fn endpoint_report(s: EndpointStatusView) -> EndpointReportView {
    EndpointReportView { id: s.id, slots: Seq::new(s.slots.len(), |i: int| slot_report(s.slots[i])) }
}

fn report_slot(s: &SlotStatus) -> (r: SlotReport)
    ensures
        r@ == slot_report(s@),
{
    let error = match &s.state {
        SlotState::Failed(e) => Some(e.clone()),
        _ => None,
    };
    let listen = match &s.laddr {
        Some(a) => Some(a.render()),
        None => None,
    };
    let mut draining: Vec<DrainingStatus> = Vec::new();
    let mut i: usize = 0;
    while i < s.draining.len()
        invariant
            i <= s.draining@.len(),
            draining@ == s.draining@.take(i as int),
        decreases s.draining@.len() - i,
    {
        draining.push(s.draining[i]);
        i = i + 1;
        assert(s.draining@.take(i as int) =~= s.draining@.take(i - 1).push(s.draining@[i - 1]));
    }
    assert(s.draining@.take(i as int) =~= s.draining@);
    SlotReport {
        protocol: proto_str(s.proto),
        state: state_str(&s.state),
        error,
        generation: s.generation,
        listen,
        connections: s.connections,
        draining,
    }
}

/// State of one endpoint, as it is reported.
pub fn endpoint_status(s: &EndpointStatus) -> (r: EndpointReport)
    ensures
        r@ == endpoint_report(s@),
{
    let ghost all = endpoint_report(s@).slots;
    let mut slots: Vec<SlotReport> = Vec::new();
    let mut i: usize = 0;
    assert(slot_report_views(slots@) =~= all.take(0));
    while i < s.slots.len()
        invariant
            i <= s.slots@.len(),
            all == endpoint_report(s@).slots,
            slot_report_views(slots@) == all.take(i as int),
        decreases s.slots@.len() - i,
    {
        let x = report_slot(&s.slots[i]);
        let ghost before = slots@;
        slots.push(x);
        i = i + 1;
        assert(slot_report_views(slots@) =~= slot_report_views(before).push(x@));
        assert(all.take(i as int) =~= all.take(i - 1).push(all[i - 1]));
    }
    assert(all.take(i as int) =~= all);
    EndpointReport { id: s.id.clone(), slots }
}

// ------------------------------------------------------------------ process --

/// Process-wide settings a caller cannot change at runtime, as they are reported.
#[derive(Debug)]
pub struct ProcessReport {
    pub version: String,
    pub features: String,
    /// the name servers in use, once the resolver is configured
    pub nameservers: Option<Vec<String>>,
    pub log_level: Option<String>,
    pub log_output: Option<String>,
    pub nofile_soft: Option<u64>,
    pub nofile_hard: Option<u64>,
    pub pipe_page: Option<usize>,
    pub pre_conn_hook: Option<String>,
}

#[verifier::ext_equal]
pub struct ProcessReportView {
    pub version: Seq<char>,
    pub features: Seq<char>,
    pub nameservers: Option<Seq<Seq<char>>>,
    pub log_level: Option<Seq<char>>,
    pub log_output: Option<Seq<char>>,
    pub nofile_soft: Option<u64>,
    pub nofile_hard: Option<u64>,
    pub pipe_page: Option<usize>,
    pub pre_conn_hook: Option<Seq<char>>,
}

impl View for ProcessReport {
    type V = ProcessReportView;

    open spec fn view(&self) -> ProcessReportView {
        ProcessReportView {
            version: self.version@,
            features: self.features@,
            nameservers: match self.nameservers {
                Some(v) => Some(text::texts(v@)),
                None => None,
            },
            log_level: text::opt_text(self.log_level),
            log_output: text::opt_text(self.log_output),
            nofile_soft: self.nofile_soft,
            nofile_hard: self.nofile_hard,
            pipe_page: self.pipe_page,
            pre_conn_hook: text::opt_text(self.pre_conn_hook),
        }
    }
}

/// The texts of a list of ips.
pub open spec fn ip_texts(v: Seq<IpAddr>) -> Seq<Seq<char>> {
    Seq::new(v.len(), |i: int| net::ip_text(v[i]))
}

pub open spec fn process_report(
    version: Seq<char>,
    features: Seq<char>,
    nameservers: Option<Vec<IpAddr>>,
    s: ProcessSettingsView,
) -> ProcessReportView {
    ProcessReportView {
        version,
        features,
        nameservers: match nameservers {
            Some(v) => Some(ip_texts(v@)),
            None => None,
        },
        log_level: s.log_level,
        log_output: s.log_output,
        nofile_soft: match s.nofile {
            Some(n) => Some(n.0),
            None => None,
        },
        nofile_hard: match s.nofile {
            Some(n) => Some(n.1),
            None => None,
        },
        pipe_page: s.pipe_page,
        pre_conn_hook: s.pre_conn_hook,
    }
}

fn render_ips(v: &Vec<IpAddr>) -> (r: Vec<String>)
    ensures
        text::texts(r@) == ip_texts(v@),
{
    let ghost all = ip_texts(v@);
    let mut out: Vec<String> = Vec::new();
    let mut i: usize = 0;
    assert(text::texts(out@) =~= all.take(0));
    while i < v.len()
        invariant
            i <= v@.len(),
            all == ip_texts(v@),
            text::texts(out@) == all.take(i as int),
        decreases v@.len() - i,
    {
        let x = v[i].render();
        let ghost before = out@;
        out.push(x);
        i = i + 1;
        assert(text::texts(out@) =~= text::texts(before).push(x@));
        assert(all.take(i as int) =~= all.take(i - 1).push(all[i - 1]));
    }
    assert(all.take(i as int) =~= all);
    out
}

/// The settings frozen at startup, as they are reported: a caller that believes a
/// node should be running with a certain limit can detect the drift.
pub fn process_status(
    version: &str,
    features: &str,
    nameservers: &Option<Vec<IpAddr>>,
    settings: &ProcessSettings,
) -> (r: ProcessReport)
    ensures
        r@ == process_report(version@, features@, *nameservers, settings@),
        settings.nofile matches Some(n) ==> r.nofile_soft == Some(n.0) && r.nofile_hard == Some(n.1),
        text::opt_text(r.log_level) == text::opt_text(settings.log_level),
        text::opt_text(r.log_output) == text::opt_text(settings.log_output),
        text::opt_text(r.pre_conn_hook) == text::opt_text(settings.pre_conn_hook),
        r.version@ == version@,
        r.features@ == features@,
{
    let nameservers = match nameservers {
        Some(v) => Some(render_ips(v)),
        None => None,
    };
    let nofile_soft = match settings.nofile {
        Some(n) => Some(n.0),
        None => None,
    };
    let nofile_hard = match settings.nofile {
        Some(n) => Some(n.1),
        None => None,
    };
    ProcessReport {
        version: version.to_string(),
        features: features.to_string(),
        nameservers,
        log_level: dup_opt(&settings.log_level),
        log_output: dup_opt(&settings.log_output),
        nofile_soft,
        nofile_hard,
        pipe_page: settings.pipe_page,
        pre_conn_hook: dup_opt(&settings.pre_conn_hook),
    }
}

// --------------------------------------------------------------- generation --

/// What is in effect, as it is reported.
#[derive(Debug)]
pub struct GenerationReport {
    pub active_generation: Option<u64>,
    /// whether that generation was applied in full, if there is one
    pub generation_state: Option<&'static str>,
    pub ready: bool,
    pub partial: bool,
    /// http status code of a readiness probe
    pub code: u16,
}

/// What is in effect, as it is reported: a process that is still restoring is not
/// ready, and a probe of its readiness fails.
pub fn generation_status(active: Option<u64>, partial: bool, ready: bool) -> (r: GenerationReport)
    ensures
        r.active_generation == active,
        r.generation_state is Some == active is Some,
        r.generation_state matches Some(s) ==> s@ == api::generation_text(partial),
        r.ready == ready,
        r.partial == partial,
        r.code == if ready {
            200u16
        } else {
            503u16
        },
{
    let generation_state = match active {
        Some(_) => Some(generation_str(partial)),
        None => None,
    };
    let code: u16 = if ready {
        200
    } else {
        503
    };
    GenerationReport { active_generation: active, generation_state, ready, partial, code }
}

/// A slot reports an error exactly if its state is `failed`.
pub proof fn law_error_means_failed(s: SlotStatusView)
    ensures
        slot_report(s).error is Some <==> s.state is Failed,
        s.state is Failed ==> slot_report(s).state == "failed"@,
{
}

} // verus!
