//! One relay rule, as configured.

use vstd::prelude::*;
use vstd::string::*;

use crate::conf::error::{BuildError, BuildErrorView};
use crate::conf::net::NetConf;
use crate::conf::options;
use crate::conf::options::{check_listen_options, check_remote_options, has_transport, named_material};
use crate::endpoint::{
    BindOpts, ConnectOpts, Endpoint, EndpointView, RemoteAddr, RemoteAddrView, Transport, TransportView,
};
use crate::lifecycle::plan::EndpointSource;
use crate::lifecycle::types::{DrainPolicy, EndpointSpec, EndpointSpecView};
use crate::net::{IpAddr, SocketAddr};
use crate::text;
use crate::text::{
    chars_of, dup_opt, dup_texts, find_char, parse_number, push_number, rfind_char, same_chars, same_opt, same_text,
    same_texts, slice, split_chars, string_of, trim_chars,
};
use crate::time::Duration;

verus! {

/// One relay rule, as configured.
#[derive(Debug)]
pub struct EndpointConf {
    pub listen: String,
    pub remote: String,
    pub extra_remotes: Vec<String>,
    pub balance: Option<String>,
    pub through: Option<String>,
    pub interface: Option<String>,
    pub listen_interface: Option<String>,
    pub listen_transport: Option<String>,
    pub remote_transport: Option<String>,
    /// seconds established connections may keep running after this endpoint
    /// was updated; absent means indefinitely
    pub update_drain_timeout: Option<u64>,
    /// seconds established connections may keep running after this endpoint
    /// was deleted; absent means the default
    pub delete_drain_timeout: Option<u64>,
    pub network: NetConf,
    /// digest of the certificate material the transport options name, as of
    /// the last refresh; absent when they name none
    ///
    /// Not part of the configuration document. Replacing the bytes of a
    /// certificate file leaves every other field identical; the digest makes
    /// such a rotation a difference that can be seen.
    pub material_digest: Option<u64>,
}

#[verifier::ext_equal]
pub struct EndpointConfView {
    pub listen: Seq<char>,
    pub remote: Seq<char>,
    pub extra_remotes: Seq<Seq<char>>,
    pub balance: Option<Seq<char>>,
    pub through: Option<Seq<char>>,
    pub interface: Option<Seq<char>>,
    pub listen_interface: Option<Seq<char>>,
    pub listen_transport: Option<Seq<char>>,
    pub remote_transport: Option<Seq<char>>,
    pub update_drain_timeout: Option<u64>,
    pub delete_drain_timeout: Option<u64>,
    pub network: NetConf,
    pub material_digest: Option<u64>,
}

impl View for EndpointConf {
    type V = EndpointConfView;

    open spec fn view(&self) -> EndpointConfView {
        EndpointConfView {
            listen: self.listen@,
            remote: self.remote@,
            extra_remotes: text::texts(self.extra_remotes@),
            balance: text::opt_text(self.balance),
            through: text::opt_text(self.through),
            interface: text::opt_text(self.interface),
            listen_interface: text::opt_text(self.listen_interface),
            listen_transport: text::opt_text(self.listen_transport),
            remote_transport: text::opt_text(self.remote_transport),
            update_drain_timeout: self.update_drain_timeout,
            delete_drain_timeout: self.delete_drain_timeout,
            network: self.network,
            material_digest: self.material_digest,
        }
    }
}

impl Clone for EndpointConf {
    fn clone(&self) -> (r: Self)
        ensures
            r@ == self@,
    {
        EndpointConf {
            listen: self.listen.clone(),
            remote: self.remote.clone(),
            extra_remotes: dup_texts(&self.extra_remotes),
            balance: dup_opt(&self.balance),
            through: dup_opt(&self.through),
            interface: dup_opt(&self.interface),
            listen_interface: dup_opt(&self.listen_interface),
            listen_transport: dup_opt(&self.listen_transport),
            remote_transport: dup_opt(&self.remote_transport),
            update_drain_timeout: self.update_drain_timeout,
            delete_drain_timeout: self.delete_drain_timeout,
            network: self.network,
            material_digest: self.material_digest,
        }
    }
}

/// A rule that listens on one address and forwards to another, with no other
/// option.
pub open spec fn plain_conf(listen: Seq<char>, remote: Seq<char>) -> EndpointConfView {
    EndpointConfView {
        listen,
        remote,
        extra_remotes: Seq::empty(),
        balance: None,
        through: None,
        interface: None,
        listen_interface: None,
        listen_transport: None,
        remote_transport: None,
        update_drain_timeout: None,
        delete_drain_timeout: None,
        network: crate::conf::net::no_options(),
        material_digest: None,
    }
}

impl EndpointSource for EndpointConf {
    type Document = EndpointConfView;

    /// Everything but the digest.
    open spec fn document(state: EndpointConfView) -> EndpointConfView {
        EndpointConfView { material_digest: None, ..state }
    }

    fn same(&self, other: &Self) -> (r: bool) {
        self.serializes_alike(other) && self.material_digest == other.material_digest
    }

    fn serializes_alike(&self, other: &Self) -> (r: bool) {
        let a = self;
        let b = other;
        same_text(a.listen.as_str(), b.listen.as_str()) && same_text(a.remote.as_str(), b.remote.as_str())
            && same_texts(&a.extra_remotes, &b.extra_remotes) && same_opt(&a.balance, &b.balance) && same_opt(
            &a.through,
            &b.through,
        ) && same_opt(&a.interface, &b.interface) && same_opt(&a.listen_interface, &b.listen_interface) && same_opt(
            &a.listen_transport,
            &b.listen_transport,
        ) && same_opt(&a.remote_transport, &b.remote_transport) && a.update_drain_timeout == b.update_drain_timeout
            && a.delete_drain_timeout == b.delete_drain_timeout && a.network == b.network
    }

    fn duplicate(&self) -> (r: Self) {
        self.clone()
    }
}

/// What had to be looked up outside to build a rule.
#[derive(Debug)]
pub struct Lookups {
    /// addresses the listen address resolves to, or why it does not
    pub listen: Result<Vec<SocketAddr>, String>,
    /// the remote, if it is a socket address as it stands
    pub remote: Option<SocketAddr>,
    /// the same for each extra remote
    pub extra_remotes: Vec<Option<SocketAddr>>,
    /// first address the send-through address resolves to
    pub through: Option<SocketAddr>,
    /// the send-through address without its brackets as an ip, or why it is none
    pub through_ip: Result<IpAddr, String>,
    /// why the trust anchor of the remote transport cannot be loaded, if so
    pub trust: Option<String>,
    /// why the listening side of the transport cannot be set up, if so: for
    /// example because its certificate or key cannot be loaded
    pub acceptor: Option<String>,
    /// why the connecting side cannot be set up, if so: for example because the
    /// name it is to present is no host name
    pub connector: Option<String>,
}

/// What a rule builds.
#[derive(Debug)]
pub struct EndpointInfo {
    pub no_tcp: bool,
    pub use_udp: bool,
    pub endpoint: Endpoint,
}

pub open spec fn build_error(field: Seq<char>, value: Seq<char>, reason: Seq<char>) -> BuildErrorView {
    BuildErrorView { field, value, reason }
}

// ----------------------------------------------------------------- addresses --

/// The listen address: the first one it resolves to.
pub open spec fn local_of(
    listen: Seq<char>,
    resolved: Result<Vec<SocketAddr>, String>,
) -> Result<SocketAddr, BuildErrorView> {
    match resolved {
        Ok(addrs) => if addrs@.len() > 0 {
            Ok(addrs@[0])
        } else {
            Err(build_error("listen"@, listen, "resolved to no address"@))
        },
        Err(e) => Err(build_error("listen"@, listen, "cannot be resolved: "@ + e@)),
    }
}

/// A remote: a socket address, or a host and a port after the last colon.
pub open spec fn remote_of(
    field: Seq<char>,
    remote: Seq<char>,
    parsed: Option<SocketAddr>,
) -> Result<RemoteAddrView, BuildErrorView> {
    let at = text::last_at(remote, ':');
    match parsed {
        Some(a) => Ok(RemoteAddrView::SocketAddr(a)),
        None => if at < 0 {
            Err(build_error(field, remote, "missing `:port` suffix"@))
        } else {
            match text::parsed_number(remote.skip(at + 1), 65535) {
                Err(e) => Err(build_error(field, remote, "invalid port: "@ + text::number_error_text(e))),
                Ok(port) => if at == 0 {
                    Err(build_error(field, remote, "missing host part"@))
                } else {
                    Ok(RemoteAddrView::DomainName(remote.take(at), port as u16))
                },
            }
        },
    }
}

/// What is looked up of an extra remote.
pub open spec fn lookup_at(lookups: Seq<Option<SocketAddr>>, i: int) -> Option<SocketAddr> {
    if 0 <= i < lookups.len() {
        lookups[i]
    } else {
        None
    }
}

/// The first `n` extra remotes, or what is wrong with the first that is refused.
pub open spec fn extra_remotes_of(
    extra: Seq<Seq<char>>,
    lookups: Seq<Option<SocketAddr>>,
    n: int,
) -> Result<Seq<RemoteAddrView>, BuildErrorView>
    decreases n,
{
    if n <= 0 {
        Ok(Seq::empty())
    } else {
        match extra_remotes_of(extra, lookups, n - 1) {
            Err(e) => Err(e),
            Ok(before) => match remote_of("extra_remotes"@, extra[n - 1], lookup_at(lookups, n - 1)) {
                Err(e) => Err(e),
                Ok(r) => Ok(before.push(r)),
            },
        }
    }
}

/// A string without square brackets.
pub open spec fn unbracketed(s: Seq<char>) -> Seq<char> {
    s.filter(|c: char| c != '[' && c != ']')
}

/// The address connections are sent from: what it resolves to, else the ip it
/// is, with any port.
pub open spec fn through_of(
    through: Option<Seq<char>>,
    resolved: Option<SocketAddr>,
    ip: Result<IpAddr, String>,
) -> Result<Option<SocketAddr>, BuildErrorView> {
    match through {
        None => Ok(None),
        Some(t) => match resolved {
            Some(a) => Ok(Some(a)),
            None => match ip {
                Ok(ip) => Ok(Some(SocketAddr { ip, port: 0, flowinfo: 0, scope_id: 0 })),
                Err(e) => Err(build_error("through"@, t, "neither an address nor an ip: "@ + e@)),
            },
        },
    }
}

/// A string without square brackets, as an ip is parsed from it.
pub fn strip_brackets(s: &str) -> (r: String)
    ensures
        r@ == unbracketed(s@),
{
    let v = chars_of(s);
    let mut r = String::new();
    let mut i: usize = 0;
    proof {
        assert(s@.take(0).filter(|c: char| c != '[' && c != ']') =~= Seq::empty());
    }
    while i < v.len()
        invariant
            i <= v@.len(),
            v@ == s@,
            r@ == s@.take(i as int).filter(|c: char| c != '[' && c != ']'),
        decreases v@.len() - i,
    {
        let c = v[i];
        proof {
            let t = s@.take(i as int + 1);
            assert(t.drop_last() =~= s@.take(i as int));
            reveal_with_fuel(Seq::filter, 2);
        }
        if c != '[' && c != ']' {
            r.push(c);
        }
        i = i + 1;
    }
    assert(s@.take(i as int) =~= s@);
    r
}

// ---------------------------------------------------------------- balancing --

/// Whether a balance strategy is known.
pub open spec fn known_strategy(s: Seq<char>) -> bool {
    s == "off"@ || s == "iphash"@ || s == "roundrobin"@
}

/// The weights of a list that are numbers.
pub open spec fn count_weights(parts: Seq<Seq<char>>) -> nat
    decreases parts.len(),
{
    if parts.len() == 0 {
        0
    } else {
        count_weights(parts.drop_last()) + if text::parsed_number(text::trim(parts.last()), 255) is Ok {
            1nat
        } else {
            0
        }
    }
}

/// The weights of a list that are not blank.
pub open spec fn count_given(parts: Seq<Seq<char>>) -> nat
    decreases parts.len(),
{
    if parts.len() == 0 {
        0
    } else {
        count_given(parts.drop_last()) + if text::trim(parts.last()).len() > 0 {
            1nat
        } else {
            0
        }
    }
}

proof fn lemma_numbers_are_given(parts: Seq<Seq<char>>)
    ensures
        count_weights(parts) <= count_given(parts),
    decreases parts.len(),
{
    if parts.len() > 0 {
        lemma_numbers_are_given(parts.drop_last());
    }
}

/// What stands before and after the first colon of a balance string.
pub open spec fn strategy_of(s: Seq<char>) -> Seq<char> {
    text::trim(s.take(text::first_at(s, ':')))
}

pub open spec fn weights_of(s: Seq<char>) -> Seq<Seq<char>> {
    text::split(text::trim(s.skip(text::first_at(s, ':') + 1)), ',')
}

/// Number of peers a balance string makes.
pub open spec fn peers_of(s: Seq<char>) -> nat {
    if strategy_of(s) == "off"@ {
        0
    } else {
        count_weights(weights_of(s))
    }
}

/// `realm_lb::Balancer::parse_from_str` followed by `total`: the strategy is what
/// stands before the first colon, the weights are the comma-separated numbers
/// below 256 after it, and what is not such a number is dropped. The balancer has
/// as many peers as weights, or none when it is off. Without a colon, with
/// another strategy, or with more than 255 weights to balance it would panic.
#[verifier::external_body]
fn balancer_total(s: &str) -> (r: u8)
    requires
        text::first_at(s@, ':') < s@.len(),
        known_strategy(strategy_of(s@)),
        count_weights(weights_of(s@)) <= 255,
    ensures
        r == peers_of(s@),
{
    realm_lb::Balancer::parse_from_str(s).total()
}

/// What is wrong with a balance string for a number of extra remotes.
pub open spec fn balance_error(s: Seq<char>, extra: nat) -> Option<Seq<char>> {
    let given = count_given(weights_of(s));
    if text::first_at(s, ':') >= s.len() {
        Some("expected `strategy: weight, ...`"@)
    } else if !known_strategy(strategy_of(s)) {
        Some("unknown strategy `"@ + strategy_of(s) + "` (expected off, iphash or roundrobin)"@)
    } else if given != peers_of(s) || given > 255 {
        Some("contains an invalid weight"@)
    } else if given != 0 && given != extra + 1 {
        Some(
            "expected "@ + text::decimal(extra + 1) + " weights for `remote` plus "@ + text::decimal(extra)
                + " `extra_remotes`, got "@ + text::decimal(given),
        )
    } else {
        None
    }
}

fn given_weights(parts: &Vec<Vec<char>>) -> (r: usize)
    ensures
        r == count_given(text::pieces(parts@)),
        r <= parts@.len(),
{
    let ghost all = text::pieces(parts@);
    let mut n: usize = 0;
    let mut i: usize = 0;
    assert(all.take(0) =~= Seq::empty());
    while i < parts.len()
        invariant
            i <= parts@.len(),
            n <= i,
            all == text::pieces(parts@),
            n == count_given(all.take(i as int)),
        decreases parts@.len() - i,
    {
        proof {
            let t = all.take(i + 1);
            assert(t.drop_last() =~= all.take(i as int));
            assert(t.last() == parts@[i as int]@);
        }
        if trim_chars(&parts[i]).len() > 0 {
            n = n + 1;
        }
        i = i + 1;
    }
    assert(all.take(i as int) =~= all);
    n
}

// ----------------------------------------------------------------- building --

/// The transport of a rule, if it asks for one.
///
/// The options are judged first, those of the listening side before those of the
/// connecting side. Then each side that is asked for has to be set up: what was
/// found wrong with it refuses the field that asks for it.
pub open spec fn transport_of(c: EndpointConfView, x: Lookups) -> Result<Option<TransportView>, BuildErrorView> {
    let listen = match c.listen_transport {
        Some(s) => options::listen_options_error(s),
        None => None,
    };
    let remote = match c.remote_transport {
        Some(s) => options::remote_options_error(s),
        None => None,
    };
    let anchor = options::material_path(c.remote_transport, "ca"@);
    if listen is Some {
        Err(build_error("listen_transport"@, c.listen_transport->0, listen->0))
    } else if remote is Some {
        Err(build_error("remote_transport"@, c.remote_transport->0, remote->0))
    } else if options::asks_for_transport(c.listen_transport) && x.acceptor is Some {
        Err(build_error("listen_transport"@, c.listen_transport->0, x.acceptor->0@))
    } else if anchor is Some && x.trust is Some {
        Err(
            build_error(
                "remote_transport"@,
                c.remote_transport->0,
                "tls: cannot load "@ + anchor->0 + ": "@ + x.trust->0@,
            ),
        )
    } else if options::asks_for_transport(c.remote_transport) && x.connector is Some {
        Err(build_error("remote_transport"@, c.remote_transport->0, x.connector->0@))
    } else if options::asks_for_transport(c.listen_transport) || options::asks_for_transport(c.remote_transport) {
        Ok(Some(TransportView { listen: c.listen_transport, remote: c.remote_transport }))
    } else {
        Ok(None)
    }
}

/// What a rule builds, and what is wrong with the first field that is refused.
pub open spec fn endpoint_of(c: EndpointConfView, x: Lookups) -> Result<EndpointView, BuildErrorView> {
    let net = crate::conf::net::net_info(c.network);
    match local_of(c.listen, x.listen) {
        Err(e) => Err(e),
        Ok(laddr) => match remote_of("remote"@, c.remote, x.remote) {
            Err(e) => Err(e),
            Ok(raddr) => match extra_remotes_of(c.extra_remotes, x.extra_remotes@, c.extra_remotes.len() as int) {
                Err(e) => Err(e),
                Ok(extra_raddrs) => match through_of(c.through, x.through, x.through_ip) {
                    Err(e) => Err(e),
                    Ok(bind_address) => if c.balance is Some && balance_error(c.balance->0, c.extra_remotes.len())
                        is Some {
                        Err(
                            build_error(
                                "balance"@,
                                c.balance->0,
                                balance_error(c.balance->0, c.extra_remotes.len())->0,
                            ),
                        )
                    } else {
                        match transport_of(c, x) {
                            Err(e) => Err(e),
                            Ok(transport) => Ok(
                                EndpointView {
                                    laddr,
                                    raddr,
                                    bind_opts: crate::endpoint::BindOptsView {
                                        listen: net.listen,
                                        bind_interface: c.listen_interface,
                                    },
                                    conn_opts: crate::endpoint::ConnectOptsView {
                                        dial: net.dial,
                                        bind_address,
                                        bind_interface: c.interface,
                                        balance: c.balance,
                                        transport,
                                    },
                                    extra_raddrs,
                                },
                            ),
                        }
                    },
                },
            },
        },
    }
}

/// Drain deadlines a rule overrides, if any.
pub open spec fn drain_policy_of(c: EndpointConfView) -> Option<DrainPolicy> {
    let default = crate::lifecycle::types::default_policy();
    if c.update_drain_timeout is None && c.delete_drain_timeout is None {
        None
    } else {
        Some(
            DrainPolicy {
                on_update: match c.update_drain_timeout {
                    Some(secs) => Some(Duration { secs, nanos: 0 }),
                    None => default.on_update,
                },
                on_delete: match c.delete_drain_timeout {
                    Some(secs) => Some(Duration { secs, nanos: 0 }),
                    None => default.on_delete,
                },
            },
        )
    }
}

/// The lifecycle spec of a rule.
pub open spec fn spec_of(c: EndpointConfView, x: Lookups) -> Result<EndpointSpecView, Seq<char>> {
    let net = crate::conf::net::net_info(c.network);
    match endpoint_of(c, x) {
        Ok(endpoint) => Ok(
            EndpointSpecView {
                endpoint,
                tcp: !net.no_tcp,
                udp: net.use_udp,
                drain: drain_policy_of(c),
                material: c.material_digest,
            },
        ),
        Err(e) => Err(crate::conf::error::build_error_text(e)),
    }
}

impl EndpointConf {
    /// A rule with nothing but its addresses.
    pub fn plain(listen: String, remote: String) -> (r: Self)
        ensures
            r@ == plain_conf(listen@, remote@),
            r.listen == listen,
            r.remote == remote,
    {
        let r = EndpointConf {
            listen,
            remote,
            extra_remotes: Vec::new(),
            balance: None,
            through: None,
            interface: None,
            listen_interface: None,
            listen_transport: None,
            remote_transport: None,
            update_drain_timeout: None,
            delete_drain_timeout: None,
            network: NetConf::default(),
            material_digest: None,
        };
        assert(r@.extra_remotes =~= Seq::empty());
        r
    }

    fn build_local(&self, resolved: &Result<Vec<SocketAddr>, String>) -> (r: Result<SocketAddr, BuildError>)
        ensures
            error_views(r) == local_of(self@.listen, *resolved),
    {
        match resolved {
            Ok(addrs) => if addrs.len() > 0 {
                Ok(addrs[0])
            } else {
                Err(BuildError::new("listen", self.listen.as_str(), "resolved to no address".to_string()))
            },
            Err(e) => {
                let mut reason = "cannot be resolved: ".to_string();
                reason.append(e.as_str());
                Err(BuildError::new("listen", self.listen.as_str(), reason))
            },
        }
    }

    fn build_remote(&self, parsed: Option<SocketAddr>) -> (r: Result<RemoteAddr, BuildError>)
        ensures
            remote_views(r) == remote_of("remote"@, self@.remote, parsed),
    {
        EndpointConf::build_remote_x("remote", self.remote.as_str(), parsed)
    }

    fn build_remote_x(
        field: &'static str,
        remote: &str,
        parsed: Option<SocketAddr>,
    ) -> (r: Result<RemoteAddr, BuildError>)
        ensures
            remote_views(r) == remote_of(field@, remote@, parsed),
    {
        if let Some(a) = parsed {
            return Ok(RemoteAddr::SocketAddr(a));
        }
        let v = chars_of(remote);
        let at = match rfind_char(&v, ':') {
            Some(at) => at,
            None => {
                return Err(BuildError::new(field, remote, "missing `:port` suffix".to_string()));
            },
        };
        let tail = slice(&v, at + 1, v.len());
        assert(tail@ =~= remote@.skip(at + 1));
        match parse_number(&tail, 65535) {
            Err(e) => {
                let mut reason = "invalid port: ".to_string();
                reason.append(e.text());
                Err(BuildError::new(field, remote, reason))
            },
            Ok(port) => {
                if at == 0 {
                    return Err(BuildError::new(field, remote, "missing host part".to_string()));
                }
                let host = slice(&v, 0, at);
                assert(host@ =~= remote@.take(at as int));
                Ok(RemoteAddr::DomainName(string_of(&host), port as u16))
            },
        }
    }

    fn build_extra_remotes(
        &self,
        lookups: &Vec<Option<SocketAddr>>,
    ) -> (r: Result<Vec<RemoteAddr>, BuildError>)
        ensures
            (match r {
                Ok(v) => Ok(crate::endpoint::remotes(v@)),
                Err(e) => Err(e@),
            }) == extra_remotes_of(self@.extra_remotes, lookups@, self@.extra_remotes.len() as int),
    {
        let ghost extra = self@.extra_remotes;
        let mut out: Vec<RemoteAddr> = Vec::new();
        let mut i: usize = 0;
        assert(crate::endpoint::remotes(out@) =~= Seq::empty());
        while i < self.extra_remotes.len()
            invariant
                i <= self.extra_remotes@.len(),
                extra == text::texts(self.extra_remotes@),
                extra_remotes_of(extra, lookups@, i as int) == Ok::<Seq<RemoteAddrView>, BuildErrorView>(
                    crate::endpoint::remotes(out@),
                ),
            decreases self.extra_remotes@.len() - i,
        {
            let lookup = if i < lookups.len() {
                lookups[i]
            } else {
                None
            };
            let ghost before = out@;
            assert(extra[i as int] == self.extra_remotes@[i as int]@);
            match EndpointConf::build_remote_x("extra_remotes", self.extra_remotes[i].as_str(), lookup) {
                Ok(x) => {
                    out.push(x);
                    assert(crate::endpoint::remotes(out@) =~= crate::endpoint::remotes(before).push(x@));
                },
                Err(e) => {
                    proof {
                        lemma_extra_stays_refused(extra, lookups@, i + 1, extra.len() as int);
                    }
                    return Err(e);
                },
            }
            i = i + 1;
        }
        Ok(out)
    }

    fn build_send_through(
        &self,
        resolved: Option<SocketAddr>,
        ip: &Result<IpAddr, String>,
    ) -> (r: Result<Option<SocketAddr>, BuildError>)
        ensures
            error_views(r) == through_of(self@.through, resolved, *ip),
    {
        let through = match &self.through {
            Some(t) => t,
            None => {
                return Ok(None);
            },
        };
        if let Some(a) = resolved {
            return Ok(Some(a));
        }
        match ip {
            Ok(ip) => Ok(Some(SocketAddr::new(*ip, 0))),
            Err(e) => {
                let mut reason = "neither an address nor an ip: ".to_string();
                reason.append(e.as_str());
                Err(BuildError::new("through", through.as_str(), reason))
            },
        }
    }

    /// The balance string, if it is one for this rule's remotes.
    pub fn build_balancer(&self) -> (r: Result<Option<String>, BuildError>)
        ensures
            match r {
                Ok(b) => text::opt_text(b) == self@.balance && (self@.balance matches Some(s) ==> balance_error(
                    s,
                    self@.extra_remotes.len(),
                ) is None),
                Err(e) => self@.balance matches Some(s) && balance_error(s, self@.extra_remotes.len()) matches Some(
                    reason,
                ) && e@ == build_error("balance"@, s, reason),
            },
    {
        let s = match &self.balance {
            Some(s) => s,
            None => {
                return Ok(None);
            },
        };
        let v = chars_of(s.as_str());
        let at = find_char(&v, ':');
        if at >= v.len() {
            return Err(BuildError::new("balance", s.as_str(), "expected `strategy: weight, ...`".to_string()));
        }
        let head = slice(&v, 0, at);
        assert(head@ =~= s@.take(at as int));
        let strategy = trim_chars(&head);
        if !(same_chars(&strategy, "off") || same_chars(&strategy, "iphash") || same_chars(&strategy, "roundrobin")) {
            let mut reason = "unknown strategy `".to_string();
            reason.append(string_of(&strategy).as_str());
            reason.append("` (expected off, iphash or roundrobin)");
            return Err(BuildError::new("balance", s.as_str(), reason));
        }
        let tail = slice(&v, at + 1, v.len());
        assert(tail@ =~= s@.skip(at + 1));
        let parts = split_chars(&trim_chars(&tail), ',');
        let given: usize = given_weights(&parts);
        proof {
            lemma_numbers_are_given(weights_of(s@));
        }
        if given > 255 || given != balancer_total(s.as_str()) as usize {
            return Err(BuildError::new("balance", s.as_str(), "contains an invalid weight".to_string()));
        }
        let extra: usize = self.extra_remotes.len();
        if given != 0 && given - 1 != extra {
            let mut reason = "expected ".to_string();
            push_successor(&mut reason, extra);
            reason.append(" weights for `remote` plus ");
            push_number(&mut reason, extra as u64, 10);
            reason.append(" `extra_remotes`, got ");
            push_number(&mut reason, given as u64, 10);
            return Err(BuildError::new("balance", s.as_str(), reason));
        }
        Ok(Some(s.clone()))
    }

    fn build_transport(&self, lookups: &Lookups) -> (r: Result<Option<Transport>, BuildError>)
        ensures
            (match r {
                Ok(t) => Ok(crate::endpoint::opt_transport(t)),
                Err(e) => Err(e@),
            }) == transport_of(self@, *lookups),
    {
        if let Some(s) = &self.listen_transport {
            if let Some(reason) = check_listen_options(s.as_str()) {
                return Err(BuildError::new("listen_transport", s.as_str(), reason.to_string()));
            }
        }
        if let Some(s) = &self.remote_transport {
            if let Some(reason) = check_remote_options(s.as_str()) {
                return Err(BuildError::new("remote_transport", s.as_str(), reason.to_string()));
            }
        }
        let listens = has_transport(&self.listen_transport);
        let connects = has_transport(&self.remote_transport);
        if let Some(s) = &self.listen_transport {
            if listens {
                if let Some(reason) = &lookups.acceptor {
                    return Err(BuildError::new("listen_transport", s.as_str(), reason.clone()));
                }
            }
        }
        if let Some(s) = &self.remote_transport {
            if let Some(path) = named_material(&self.remote_transport, "ca") {
                if let Some(e) = &lookups.trust {
                    let mut reason = "tls: cannot load ".to_string();
                    reason.append(path.as_str());
                    reason.append(": ");
                    reason.append(e.as_str());
                    return Err(BuildError::new("remote_transport", s.as_str(), reason));
                }
            }
            if connects {
                if let Some(reason) = &lookups.connector {
                    return Err(BuildError::new("remote_transport", s.as_str(), reason.clone()));
                }
            }
        }
        if listens || connects {
            Ok(
                Some(
                    Transport {
                        listen: dup_opt(&self.listen_transport),
                        remote: dup_opt(&self.remote_transport),
                    },
                ),
            )
        } else {
            Ok(None)
        }
    }

    /// Build the rule, knowing what was looked up for it.
    pub fn build(&self, lookups: &Lookups) -> (r: Result<EndpointInfo, BuildError>)
        ensures
            match r {
                Ok(info) => {
                    &&& endpoint_of(self@, *lookups) == Ok::<EndpointView, BuildErrorView>(info.endpoint@)
                    &&& info.no_tcp == crate::conf::net::net_info(self.network).no_tcp
                    &&& info.use_udp == crate::conf::net::net_info(self.network).use_udp
                    &&& info.no_tcp == (self.network.no_tcp == Some(true))
                    &&& info.use_udp == (self.network.use_udp == Some(true))
                    &&& lookups.listen matches Ok(addrs) && addrs@.len() > 0 && info.endpoint.laddr == addrs@[0]
                    &&& text::opt_text(info.endpoint.bind_opts.bind_interface) == text::opt_text(self.listen_interface)
                    &&& text::opt_text(info.endpoint.conn_opts.bind_interface) == text::opt_text(self.interface)
                    &&& text::opt_text(info.endpoint.conn_opts.balance) == text::opt_text(self.balance)
                    &&& info.endpoint.extra_raddrs@.len() == self.extra_remotes@.len()
                    &&& info.endpoint.conn_opts.transport matches Some(t) ==> text::opt_text(t.listen)
                        == text::opt_text(self.listen_transport) && text::opt_text(t.remote) == text::opt_text(
                        self.remote_transport,
                    )
                },
                Err(e) => endpoint_of(self@, *lookups) == Err::<EndpointView, BuildErrorView>(e@),
            },
    {
        let laddr = match self.build_local(&lookups.listen) {
            Ok(x) => x,
            Err(e) => {
                return Err(e);
            },
        };
        let raddr = match self.build_remote(lookups.remote) {
            Ok(x) => x,
            Err(e) => {
                return Err(e);
            },
        };
        let extra_raddrs = match self.build_extra_remotes(&lookups.extra_remotes) {
            Ok(x) => x,
            Err(e) => {
                return Err(e);
            },
        };
        let bind_address = match self.build_send_through(lookups.through, &lookups.through_ip) {
            Ok(x) => x,
            Err(e) => {
                return Err(e);
            },
        };
        let balance = match self.build_balancer() {
            Ok(x) => x,
            Err(e) => {
                return Err(e);
            },
        };
        let net = self.network.build();
        let transport = match self.build_transport(lookups) {
            Ok(x) => x,
            Err(e) => {
                return Err(e);
            },
        };
        let endpoint = Endpoint {
            laddr,
            raddr,
            bind_opts: BindOpts { listen: net.listen, bind_interface: dup_opt(&self.listen_interface) },
            conn_opts: ConnectOpts {
                dial: net.dial,
                bind_address,
                bind_interface: dup_opt(&self.interface),
                balance,
                transport,
            },
            extra_raddrs,
        };
        proof {
            lemma_one_extra_remote_each(
                self@.extra_remotes,
                lookups.extra_remotes@,
                self@.extra_remotes.len() as int,
            );
            assert(crate::endpoint::remotes(endpoint.extra_raddrs@).len() == endpoint.extra_raddrs@.len());
        }
        Ok(EndpointInfo { no_tcp: net.no_tcp, use_udp: net.use_udp, endpoint })
    }

    /// Build the lifecycle spec of the rule, knowing what was looked up for it.
    pub fn build_spec(&self, lookups: &Lookups) -> (r: Result<EndpointSpec, String>)
        ensures
            crate::lifecycle::plan::built_view(r) == spec_of(self@, *lookups),
            r matches Ok(s) ==> {
                &&& s.tcp == (self.network.no_tcp != Some(true))
                &&& s.udp == (self.network.use_udp == Some(true))
                &&& s.material == self.material_digest
                &&& text::opt_text(s.endpoint.bind_opts.bind_interface) == text::opt_text(self.listen_interface)
                &&& text::opt_text(s.endpoint.conn_opts.bind_interface) == text::opt_text(self.interface)
            },
    {
        let drain = self.drain_policy();
        match self.build(lookups) {
            Ok(info) => Ok(
                EndpointSpec {
                    endpoint: info.endpoint,
                    tcp: !info.no_tcp,
                    udp: info.use_udp,
                    drain,
                    material: self.material_digest,
                },
            ),
            Err(e) => Err(e.message()),
        }
    }

    /// Canonical form used for comparing.
    ///
    /// Fills in the process-wide network options the same way the static mode
    /// does, so that two descriptions meaning the same thing compare equal.
    pub fn normalized(&self, global: &NetConf) -> (r: Self)
        ensures
            r@ == normalized(self@, *global),
    {
        let mut conf = self.clone();
        conf.network.take_field(global);
        conf
    }

    /// Drain deadlines this rule overrides, if any.
    pub fn drain_policy(&self) -> (r: Option<DrainPolicy>)
        ensures
            r == drain_policy_of(self@),
            r is Some <==> self.update_drain_timeout is Some || self.delete_drain_timeout is Some,
            r matches Some(p) ==> {
                &&& self.update_drain_timeout matches Some(u) ==> p.on_update == Some(Duration { secs: u, nanos: 0 })
                &&& self.update_drain_timeout is None ==> p.on_update is None
                &&& self.delete_drain_timeout matches Some(d) ==> p.on_delete == Some(Duration { secs: d, nanos: 0 })
                &&& self.delete_drain_timeout is None ==> p.on_delete == Some(Duration { secs: 30, nanos: 0 })
            },
    {
        if self.update_drain_timeout.is_none() && self.delete_drain_timeout.is_none() {
            return None;
        }
        let default = DrainPolicy::default();
        let on_update = match self.update_drain_timeout {
            Some(secs) => Some(Duration::from_secs(secs)),
            None => default.on_update,
        };
        let on_delete = match self.delete_drain_timeout {
            Some(secs) => Some(Duration::from_secs(secs)),
            None => default.on_delete,
        };
        Some(DrainPolicy { on_update, on_delete })
    }
}

/// A rule with the process-wide network options filled in.
pub open spec fn normalized(c: EndpointConfView, global: NetConf) -> EndpointConfView {
    EndpointConfView { network: crate::conf::net::filled_in(c.network, global), ..c }
}

/// Normalizing twice is normalizing once, so a description that was normalized
/// compares equal to itself submitted again.
pub proof fn law_normalizing_is_idempotent(c: EndpointConfView, global: NetConf)
    ensures
        normalized(normalized(c, global), global) == normalized(c, global),
{
    crate::conf::net::law_filling_in_is_idempotent(c.network, global);
}

/// A rule that sets no deadline leaves the defaults alone; setting one leaves
/// the other at its default.
pub proof fn law_one_deadline_leaves_the_other(c: EndpointConfView, secs: u64)
    ensures
        drain_policy_of(
            EndpointConfView { update_drain_timeout: Some(secs), delete_drain_timeout: None, ..c },
        ) == Some(
            DrainPolicy {
                on_update: Some(Duration { secs, nanos: 0 }),
                on_delete: crate::lifecycle::types::default_policy().on_delete,
            },
        ),
        drain_policy_of(
            EndpointConfView { update_drain_timeout: None, delete_drain_timeout: Some(secs), ..c },
        ) == Some(DrainPolicy { on_update: None, on_delete: Some(Duration { secs, nanos: 0 }) }),
        drain_policy_of(EndpointConfView { update_drain_timeout: None, delete_drain_timeout: None, ..c }) is None,
{
}

pub open spec fn error_views<T>(r: Result<T, BuildError>) -> Result<T, BuildErrorView> {
    match r {
        Ok(x) => Ok(x),
        Err(e) => Err(e@),
    }
}

pub open spec fn remote_views(r: Result<RemoteAddr, BuildError>) -> Result<RemoteAddrView, BuildErrorView> {
    match r {
        Ok(x) => Ok(x@),
        Err(e) => Err(e@),
    }
}

proof fn lemma_extra_stays_refused(extra: Seq<Seq<char>>, lookups: Seq<Option<SocketAddr>>, n: int, m: int)
    requires
        0 < n <= m,
        extra_remotes_of(extra, lookups, n) is Err,
    ensures
        extra_remotes_of(extra, lookups, m) == extra_remotes_of(extra, lookups, n),
    decreases m - n,
{
    if n < m {
        lemma_extra_stays_refused(extra, lookups, n, m - 1);
    }
}

fn push_successor(out: &mut String, n: usize)
    ensures
        final(out)@ == old(out)@ + text::decimal(n as nat + 1),
{
    if n < usize::MAX {
        push_number(out, (n + 1) as u64, 10);
    } else {
        push_number(out, n as u64 / 10, 10);
        proof {
            assert(n as nat + 1 == 18446744073709551616nat || n as nat + 1 == 4294967296nat);
            assert((n as nat + 1) / 10 == n as nat / 10);
        }
        out.push('6');
        assert(text::digit(6) == '6');
        assert(out@ =~= old(out)@ + text::decimal(n as nat + 1));
    }
}

proof fn lemma_one_extra_remote_each(list: Seq<Seq<char>>, found: Seq<Option<SocketAddr>>, n: int)
    requires
        0 <= n,
        extra_remotes_of(list, found, n) is Ok,
    ensures
        extra_remotes_of(list, found, n)->Ok_0.len() == n,
    decreases n,
{
    if n > 0 {
        lemma_one_extra_remote_each(list, found, n - 1);
    }
}

/// Whichever of its peers the balancer of a built rule picks, there is a remote
/// for it.
pub proof fn law_every_peer_has_a_remote(c: EndpointConfView, x: Lookups, token: Option<u8>)
    requires
        endpoint_of(c, x) is Ok,
        token matches Some(t) ==> t == 0 || (c.balance is Some && t < peers_of(c.balance->0)),
    ensures
        crate::endpoint::chosen_remote(endpoint_of(c, x)->Ok_0, token) is Some,
{
    lemma_one_extra_remote_each(c.extra_remotes, x.extra_remotes@, c.extra_remotes.len() as int);
}

} // verus!
