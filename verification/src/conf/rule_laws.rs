//! What a rule builds, field by field.

use vstd::prelude::*;

use crate::conf::endpoint;
use crate::conf::endpoint::{EndpointConf, EndpointConfView, Lookups};
use crate::conf::error::BuildErrorView;
use crate::conf::net;
use crate::conf::net::NetConf;
use crate::conf::options;
use crate::endpoint::{EndpointView, RemoteAddrView, TransportView};
use crate::lifecycle::plan::EndpointSource;
use crate::lifecycle::types::EndpointSpecView;
use crate::net::SocketAddr;
use crate::text;
use crate::text_laws;
use crate::time::Duration;

verus! {

// ------------------------------------------------------------ net options --

/// Of two sets of options the first counts wherever it gives one, and the second
/// only where it does not.
pub proof fn law_given_options_count(own: NetConf, other: NetConf)
    ensures
        ({
            let r = net::filled_in(own, other);
            &&& r.no_tcp == if own.no_tcp is Some { own.no_tcp } else { other.no_tcp }
            &&& r.use_udp == if own.use_udp is Some { own.use_udp } else { other.use_udp }
            &&& r.ipv6_only == if own.ipv6_only is Some { own.ipv6_only } else { other.ipv6_only }
            &&& r.tcp_timeout == if own.tcp_timeout is Some { own.tcp_timeout } else { other.tcp_timeout }
            &&& r.udp_timeout == if own.udp_timeout is Some { own.udp_timeout } else { other.udp_timeout }
            &&& r.tcp_keepalive == if own.tcp_keepalive is Some { own.tcp_keepalive } else { other.tcp_keepalive }
            &&& r.tcp_keepalive_probe == if own.tcp_keepalive_probe is Some {
                own.tcp_keepalive_probe
            } else {
                other.tcp_keepalive_probe
            }
            &&& r.send_mptcp == if own.send_mptcp is Some { own.send_mptcp } else { other.send_mptcp }
            &&& r.accept_mptcp == if own.accept_mptcp is Some { own.accept_mptcp } else { other.accept_mptcp }
            &&& r.send_proxy == if own.send_proxy is Some { own.send_proxy } else { other.send_proxy }
            &&& r.send_proxy_version == if own.send_proxy_version is Some {
                own.send_proxy_version
            } else {
                other.send_proxy_version
            }
            &&& r.accept_proxy == if own.accept_proxy is Some { own.accept_proxy } else { other.accept_proxy }
            &&& r.accept_proxy_timeout == if own.accept_proxy_timeout is Some {
                own.accept_proxy_timeout
            } else {
                other.accept_proxy_timeout
            }
        }),
{
}

/// Where no option is given, filling in takes everything from the other side, and
/// gives nothing to it.
pub proof fn law_no_options_leave_the_others(c: NetConf)
    ensures
        net::filled_in(net::no_options(), c) == c,
        net::filled_in(c, net::no_options()) == c,
        c == net::no_options() <==> forall|d: NetConf| #[trigger] net::filled_in(c, d) == d,
{
    if forall|d: NetConf| #[trigger] net::filled_in(c, d) == d {
        assert(net::filled_in(c, net::no_options()) == net::no_options());
    }
    if c == net::no_options() {
        assert forall|d: NetConf| #[trigger] net::filled_in(c, d) == d by {
            law_given_options_count(c, d);
        }
    }
}

/// An option that is given is what is built, each in its own place.
pub proof fn law_given_options_are_built(c: NetConf)
    ensures
        ({
            let r = net::net_info(c);
            &&& c.no_tcp matches Some(x) ==> r.no_tcp == x
            &&& c.use_udp matches Some(x) ==> r.use_udp == x
            &&& c.ipv6_only matches Some(x) ==> r.listen.ipv6_only == x
            &&& c.accept_mptcp matches Some(x) ==> r.listen.accept_mptcp == x
            &&& c.accept_proxy matches Some(x) ==> r.listen.accept_proxy == x
            &&& c.accept_proxy_timeout matches Some(x) ==> r.listen.accept_proxy_timeout == x
            &&& c.tcp_timeout matches Some(x) ==> r.dial.connect_timeout == x
            &&& c.udp_timeout matches Some(x) ==> r.dial.associate_timeout == x
            &&& c.tcp_keepalive matches Some(x) ==> r.dial.tcp_keepalive == x
            &&& c.tcp_keepalive_probe matches Some(x) ==> r.dial.tcp_keepalive_probe == x
            &&& c.send_mptcp matches Some(x) ==> r.dial.send_mptcp == x
            &&& c.send_proxy matches Some(x) ==> r.dial.send_proxy == x
            &&& c.send_proxy_version matches Some(x) ==> r.dial.send_proxy_version == x
        }),
{
}

/// Without options a rule serves tcp and not udp, waits 5 seconds for a
/// connection and for a proxy header, keeps an idle association for 30, probes a
/// connection every 15 and gives it up after 3 probes. Multipath, the proxy
/// protocol and ipv6 alone are off.
pub proof fn law_absent_options_have_their_defaults(c: NetConf)
    ensures
        ({
            let r = net::net_info(c);
            &&& c.no_tcp is None ==> !r.no_tcp
            &&& c.use_udp is None ==> !r.use_udp
            &&& c.ipv6_only is None ==> !r.listen.ipv6_only
            &&& c.accept_mptcp is None ==> !r.listen.accept_mptcp
            &&& c.accept_proxy is None ==> !r.listen.accept_proxy
            &&& c.accept_proxy_timeout is None ==> r.listen.accept_proxy_timeout == 5
            &&& c.tcp_timeout is None ==> r.dial.connect_timeout == 5
            &&& c.udp_timeout is None ==> r.dial.associate_timeout == 30
            &&& c.tcp_keepalive is None ==> r.dial.tcp_keepalive == 15
            &&& c.tcp_keepalive_probe is None ==> r.dial.tcp_keepalive_probe == 3
            &&& c.send_mptcp is None ==> !r.dial.send_mptcp
            &&& c.send_proxy is None ==> !r.dial.send_proxy
            &&& c.send_proxy_version is None ==> r.dial.send_proxy_version == 2
        }),
{
}

/// Normalizing a rule fills in its network options from the process-wide ones and
/// touches nothing else.
pub proof fn law_normalizing_touches_network_options_alone(c: EndpointConfView, global: NetConf)
    ensures
        ({
            let n = endpoint::normalized(c, global);
            &&& n.network == net::filled_in(c.network, global)
            &&& n.listen == c.listen
            &&& n.remote == c.remote
            &&& n.extra_remotes == c.extra_remotes
            &&& n.balance == c.balance
            &&& n.through == c.through
            &&& n.interface == c.interface
            &&& n.listen_interface == c.listen_interface
            &&& n.listen_transport == c.listen_transport
            &&& n.remote_transport == c.remote_transport
            &&& n.update_drain_timeout == c.update_drain_timeout
            &&& n.delete_drain_timeout == c.delete_drain_timeout
            &&& n.material_digest == c.material_digest
        }),
{
}

/// Two rules are written down alike exactly if they agree on everything but the
/// digest of their material.
pub proof fn law_only_the_digest_is_not_written_down(a: EndpointConfView, b: EndpointConfView)
    ensures
        <EndpointConf as EndpointSource>::document(a) == <EndpointConf as EndpointSource>::document(b) <==> {
            &&& a.listen == b.listen
            &&& a.remote == b.remote
            &&& a.extra_remotes == b.extra_remotes
            &&& a.balance == b.balance
            &&& a.through == b.through
            &&& a.interface == b.interface
            &&& a.listen_interface == b.listen_interface
            &&& a.listen_transport == b.listen_transport
            &&& a.remote_transport == b.remote_transport
            &&& a.update_drain_timeout == b.update_drain_timeout
            &&& a.delete_drain_timeout == b.delete_drain_timeout
            &&& a.network == b.network
        },
{
    let x = <EndpointConf as EndpointSource>::document(a);
    let y = <EndpointConf as EndpointSource>::document(b);
    if x == y {
        assert(x.listen == y.listen && x.remote == y.remote && x.extra_remotes == y.extra_remotes);
        assert(x.balance == y.balance && x.through == y.through && x.interface == y.interface);
        assert(x.listen_interface == y.listen_interface && x.listen_transport == y.listen_transport);
        assert(x.remote_transport == y.remote_transport && x.network == y.network);
        assert(x.update_drain_timeout == y.update_drain_timeout);
        assert(x.delete_drain_timeout == y.delete_drain_timeout);
    }
}

// ------------------------------------------------------------------ drains --

/// A deadline that is given is the one in effect, whatever the other one is. One
/// that is not given is no deadline for an update, and 30 seconds for a delete.
/// A rule that gives neither leaves both to the process.
pub proof fn law_given_deadlines_count(c: EndpointConfView)
    ensures
        endpoint::drain_policy_of(c) is Some <==> c.update_drain_timeout is Some || c.delete_drain_timeout is Some,
        endpoint::drain_policy_of(c) matches Some(p) ==> {
            &&& c.update_drain_timeout matches Some(u) ==> p.on_update == Some(Duration { secs: u, nanos: 0 })
            &&& c.update_drain_timeout is None ==> p.on_update is None
            &&& c.delete_drain_timeout matches Some(d) ==> p.on_delete == Some(Duration { secs: d, nanos: 0 })
            &&& c.delete_drain_timeout is None ==> p.on_delete == Some(Duration { secs: 30, nanos: 0 })
        },
{
}

// ----------------------------------------------------------------- remotes --

/// Whether a text is a host and a port, with a colon between them: the port is
/// what follows the last one.
pub open spec fn host_and_port(s: Seq<char>, host: Seq<char>, port: u16) -> bool {
    exists|tail: Seq<char>|
        {
            &&& s == #[trigger] (host.push(':') + tail)
            &&& !tail.contains(':')
            &&& host.len() > 0
            &&& text::parsed_number(tail, 65535) == Ok::<int, text::NumberError>(port as int)
        }
}

/// Whether a remote is what a text stands for: the address it was found to be, or
/// else the host and port it spells.
pub open spec fn stands_for(s: Seq<char>, found: Option<SocketAddr>, remote: RemoteAddrView) -> bool {
    match found {
        Some(a) => remote == RemoteAddrView::SocketAddr(a),
        None => remote matches RemoteAddrView::DomainName(host, port) && host_and_port(s, host, port),
    }
}

proof fn lemma_port_in_range(s: Seq<char>, at: int)
    requires
        0 <= at < s.len(),
        text::parsed_number(s.skip(at + 1), 65535) is Ok,
    ensures
        0 <= text::parsed_number(s.skip(at + 1), 65535)->Ok_0 <= 65535,
{
    text_laws::law_only_digits_are_a_number(s.skip(at + 1), 65535);
}

/// A text that was not found to be an address is a remote exactly if it is a host
/// and a port, and then it is that host and that port. One that was found is that
/// address. What is refused is refused under the field and with the text.
pub proof fn law_remote_is_an_address_or_a_host_and_a_port(
    field: Seq<char>,
    s: Seq<char>,
    found: Option<SocketAddr>,
    host: Seq<char>,
    port: u16,
)
    ensures
        endpoint::remote_of(field, s, found) matches Ok(r) ==> stands_for(s, found, r),
        found is Some ==> endpoint::remote_of(field, s, found) is Ok,
        found is None && host_and_port(s, host, port) ==> endpoint::remote_of(field, s, found) == Ok::<
            RemoteAddrView,
            BuildErrorView,
        >(RemoteAddrView::DomainName(host, port)),
        endpoint::remote_of(field, s, found) matches Err(e) ==> e.field == field && e.value == s,
{
    let at = text::last_at(s, ':');
    text_laws::law_last_occurrence(s, ':');
    if found is None {
        if endpoint::remote_of(field, s, found) is Ok {
            let tail = s.skip(at + 1);
            lemma_port_in_range(s, at);
            assert(s =~= s.take(at).push(':') + tail);
            assert(!tail.contains(':')) by {
                if tail.contains(':') {
                    let i = tail.index_of(':');
                    assert(s[at + 1 + i] == ':');
                }
            }
            let n = text::parsed_number(tail, 65535)->Ok_0;
            assert((n as u16) as int == n);
            assert(host_and_port(s, s.take(at), n as u16));
        }
        if host_and_port(s, host, port) {
            let tail = choose|tail: Seq<char>|
                {
                    &&& s == #[trigger] (host.push(':') + tail)
                    &&& !tail.contains(':')
                    &&& host.len() > 0
                    &&& text::parsed_number(tail, 65535) == Ok::<int, text::NumberError>(port as int)
                };
            let k = host.len() as int;
            assert(s[k] == ':');
            if at > k {
                assert(tail[at - k - 1] == s[at]);
                assert(tail.contains(':'));
            }
            assert(at >= k) by {
                if at < k {
                    assert(s[k] != ':');
                }
            }
            assert(s.skip(at + 1) =~= tail);
            assert(s.take(at) =~= host);
        }
    }
}

/// What was found of an extra remote, if anything.
pub open spec fn found_at(x: Lookups, i: int) -> Option<SocketAddr> {
    if i < x.extra_remotes@.len() {
        x.extra_remotes@[i]
    } else {
        None
    }
}

proof fn lemma_extras(extra: Seq<Seq<char>>, x: Lookups, n: int)
    requires
        0 <= n <= extra.len(),
    ensures
        endpoint::extra_remotes_of(extra, x.extra_remotes@, n) matches Ok(v) ==> v.len() == n && forall|i: int|
            0 <= i < n ==> stands_for(extra[i], found_at(x, i), #[trigger] v[i]),
        endpoint::extra_remotes_of(extra, x.extra_remotes@, n) matches Err(e) ==> exists|i: int|
            0 <= i < n && {
                &&& e == endpoint::remote_of("extra_remotes"@, #[trigger] extra[i], found_at(x, i))->Err_0
                &&& endpoint::remote_of("extra_remotes"@, extra[i], found_at(x, i)) is Err
                &&& forall|j: int|
                    0 <= j < i ==> endpoint::remote_of("extra_remotes"@, #[trigger] extra[j], found_at(x, j)) is Ok
            },
        endpoint::extra_remotes_of(extra, x.extra_remotes@, n) is Ok ==> forall|j: int|
            0 <= j < n ==> endpoint::remote_of("extra_remotes"@, #[trigger] extra[j], found_at(x, j)) is Ok,
    decreases n,
{
    if n > 0 {
        lemma_extras(extra, x, n - 1);
        assert(endpoint::lookup_at(x.extra_remotes@, n - 1) == found_at(x, n - 1));
        law_remote_is_an_address_or_a_host_and_a_port("extra_remotes"@, extra[n - 1], found_at(x, n - 1), seq![], 0);
        match endpoint::extra_remotes_of(extra, x.extra_remotes@, n - 1) {
            Ok(before) => {
                match endpoint::remote_of("extra_remotes"@, extra[n - 1], found_at(x, n - 1)) {
                    Ok(r) => {
                        let v = endpoint::extra_remotes_of(extra, x.extra_remotes@, n)->Ok_0;
                        assert(v == before.push(r));
                        assert forall|i: int| 0 <= i < n implies stands_for(
                            extra[i],
                            found_at(x, i),
                            #[trigger] v[i],
                        ) by {
                            if i < n - 1 {
                                assert(v[i] == before[i]);
                            }
                        }
                    },
                    Err(e) => {
                        let i = n - 1;
                        assert(e == endpoint::remote_of("extra_remotes"@, extra[i], found_at(x, i))->Err_0);
                    },
                }
            },
            Err(e) => {},
        }
    }
}

// ------------------------------------------------------------------- rules --

/// Every field of a rule that builds comes from where it should.
///
/// It listens on the first address its listen address resolves to, bound to the
/// interface for listening. It forwards to what its remotes stand for, from the
/// address and the interface for connecting. Its balance string is the one that is
/// written, and its transport holds what is written for either side.
pub proof fn law_built_rule_has_every_field(c: EndpointConfView, x: Lookups)
    requires
        endpoint::endpoint_of(c, x) is Ok,
    ensures
        ({
            let e = endpoint::endpoint_of(c, x)->Ok_0;
            &&& x.listen matches Ok(addrs) && addrs@.len() > 0 && e.laddr == addrs@[0]
            &&& stands_for(c.remote, x.remote, e.raddr)
            &&& e.extra_raddrs.len() == c.extra_remotes.len()
            &&& forall|i: int|
                0 <= i < c.extra_remotes.len() ==> stands_for(
                    c.extra_remotes[i],
                    found_at(x, i),
                    #[trigger] e.extra_raddrs[i],
                )
            &&& e.bind_opts.bind_interface == c.listen_interface
            &&& e.conn_opts.bind_interface == c.interface
            &&& e.conn_opts.balance == c.balance
            &&& c.through is None ==> e.conn_opts.bind_address is None
            &&& c.through is Some && x.through is Some ==> e.conn_opts.bind_address == x.through
            &&& c.through is Some && x.through is None ==> {
                &&& x.through_ip matches Ok(ip) && e.conn_opts.bind_address == Some(
                    SocketAddr { ip, port: 0, flowinfo: 0, scope_id: 0 },
                )
            }
            &&& e.bind_opts.listen == net::net_info(c.network).listen
            &&& e.conn_opts.dial == net::net_info(c.network).dial
            &&& e.conn_opts.transport matches Some(t) ==> t.listen == c.listen_transport && t.remote
                == c.remote_transport
            &&& e.conn_opts.transport is Some <==> {
                ||| c.listen_transport matches Some(s) && (options::has_option(s, "ws"@) || options::has_option(
                    s,
                    "tls"@,
                ))
                ||| c.remote_transport matches Some(s) && (options::has_option(s, "ws"@) || options::has_option(
                    s,
                    "tls"@,
                ))
            }
        }),
{
    law_remote_is_an_address_or_a_host_and_a_port("remote"@, c.remote, x.remote, seq![], 0);
    lemma_extras(c.extra_remotes, x, c.extra_remotes.len() as int);
}

/// The lifecycle spec of a rule serves what the rule builds: tcp unless it is
/// switched off, udp only if it is switched on. It carries the digest of the
/// rule's material, and the deadlines the rule gives.
pub proof fn law_built_spec_has_every_field(c: EndpointConfView, x: Lookups)
    requires
        endpoint::spec_of(c, x) is Ok,
    ensures
        ({
            let s = endpoint::spec_of(c, x)->Ok_0;
            &&& endpoint::endpoint_of(c, x) == Ok::<EndpointView, BuildErrorView>(s.endpoint)
            &&& s.tcp == (c.network.no_tcp != Some(true))
            &&& s.udp == (c.network.use_udp == Some(true))
            &&& s.material == c.material_digest
            &&& s.drain is Some <==> c.update_drain_timeout is Some || c.delete_drain_timeout is Some
            &&& s.drain matches Some(p) ==> {
                &&& c.update_drain_timeout matches Some(u) ==> p.on_update == Some(Duration { secs: u, nanos: 0 })
                &&& c.update_drain_timeout is None ==> p.on_update is None
                &&& c.delete_drain_timeout matches Some(d) ==> p.on_delete == Some(Duration { secs: d, nanos: 0 })
                &&& c.delete_drain_timeout is None ==> p.on_delete == Some(Duration { secs: 30, nanos: 0 })
            }
        }),
{
    law_given_deadlines_count(c);
}

/// Whether a text is good as a remote.
pub open spec fn good_remote(s: Seq<char>, found: Option<SocketAddr>) -> bool {
    found is Some || exists|host: Seq<char>, port: u16| #[trigger] host_and_port(s, host, port)
}

/// Whether the address to send from is good.
pub open spec fn good_through(c: EndpointConfView, x: Lookups) -> bool {
    c.through is None || x.through is Some || x.through_ip is Ok
}

/// Whether the balance string is good for the remotes of a rule.
pub open spec fn good_balance(c: EndpointConfView) -> bool {
    c.balance matches Some(s) ==> endpoint::balance_error(s, c.extra_remotes.len()) is None
}

/// Whether a rule asks for a transport on a side.
pub open spec fn asks_for(s: Option<Seq<char>>) -> bool {
    s matches Some(s) && (options::has_option(s, "ws"@) || options::has_option(s, "tls"@))
}

/// Whether both sides of the transport are good.
pub open spec fn good_transport(c: EndpointConfView, x: Lookups) -> bool {
    &&& c.listen_transport matches Some(s) ==> options::listen_options_error(s) is None
    &&& c.remote_transport matches Some(s) ==> options::remote_options_error(s) is None
    &&& asks_for(c.listen_transport) ==> x.acceptor is None
    &&& asks_for(c.remote_transport) ==> x.connector is None
    &&& (c.remote_transport matches Some(s) && options::has_option(s, "tls"@) && options::option_value(s, "ca"@)
        is Some) ==> x.trust is None
}

proof fn lemma_good_remote(field: Seq<char>, s: Seq<char>, found: Option<SocketAddr>)
    ensures
        endpoint::remote_of(field, s, found) is Ok <==> good_remote(s, found),
{
    law_remote_is_an_address_or_a_host_and_a_port(field, s, found, seq![], 0);
    if found is None && good_remote(s, found) {
        let (host, port) = choose|host: Seq<char>, port: u16| #[trigger] host_and_port(s, host, port);
        law_remote_is_an_address_or_a_host_and_a_port(field, s, found, host, port);
    }
}

/// A rule builds exactly if every part of it is good: it resolves to an address to
/// listen on, each remote is an address or a host and a port, there is an address
/// to send from if one is asked for, and the balance string and both sides of the
/// transport are good.
pub proof fn law_rule_builds_exactly_if_every_part_is_good(c: EndpointConfView, x: Lookups)
    ensures
        endpoint::endpoint_of(c, x) is Ok <==> {
            &&& x.listen matches Ok(addrs) && addrs@.len() > 0
            &&& good_remote(c.remote, x.remote)
            &&& forall|i: int|
                0 <= i < c.extra_remotes.len() ==> good_remote(#[trigger] c.extra_remotes[i], found_at(x, i))
            &&& good_through(c, x)
            &&& good_balance(c)
            &&& good_transport(c, x)
        },
{
    let n = c.extra_remotes.len() as int;
    lemma_good_remote("remote"@, c.remote, x.remote);
    lemma_extras(c.extra_remotes, x, n);
    assert forall|i: int| 0 <= i < n implies good_remote(#[trigger] c.extra_remotes[i], found_at(x, i))
        == endpoint::remote_of("extra_remotes"@, c.extra_remotes[i], found_at(x, i)) is Ok by {
        lemma_good_remote("extra_remotes"@, c.extra_remotes[i], found_at(x, i));
    }
}

/// A rule that does not build is refused for its first part that is not good, in
/// the order listen address, remote, extra remotes, address to send from, balance
/// string, transport. The error names the field and what is written there, and
/// for a lookup that failed why it did.
pub proof fn law_refused_rule_names_the_first_bad_field(c: EndpointConfView, x: Lookups)
    requires
        endpoint::endpoint_of(c, x) is Err,
    ensures
        ({
            let e = endpoint::endpoint_of(c, x)->Err_0;
            let remotes = good_remote(c.remote, x.remote) && forall|i: int|
                0 <= i < c.extra_remotes.len() ==> good_remote(#[trigger] c.extra_remotes[i], found_at(x, i));
            &&& x.listen matches Err(why) ==> {
                &&& e.field == "listen"@
                &&& e.value == c.listen
                &&& e.reason == "cannot be resolved: "@ + why@
            }
            &&& (x.listen matches Ok(addrs) && addrs@.len() == 0) ==> e.field == "listen"@ && e.value == c.listen
            &&& (x.listen matches Ok(addrs) && addrs@.len() > 0) ==> {
                &&& !good_remote(c.remote, x.remote) ==> e.field == "remote"@ && e.value == c.remote
                &&& good_remote(c.remote, x.remote) && !remotes ==> e.field == "extra_remotes"@ && exists|i: int|
                    0 <= i < c.extra_remotes.len() && e.value == #[trigger] c.extra_remotes[i] && !good_remote(
                        c.extra_remotes[i],
                        found_at(x, i),
                    ) && forall|j: int| 0 <= j < i ==> good_remote(#[trigger] c.extra_remotes[j], found_at(x, j))
                &&& remotes && !good_through(c, x) ==> {
                    &&& e.field == "through"@
                    &&& Some(e.value) == c.through
                    &&& e.reason == "neither an address nor an ip: "@ + x.through_ip->Err_0@
                }
                &&& remotes && good_through(c, x) && !good_balance(c) ==> {
                    &&& e.field == "balance"@
                    &&& Some(e.value) == c.balance
                    &&& Some(e.reason) == endpoint::balance_error(c.balance->0, c.extra_remotes.len())
                }
                &&& remotes && good_through(c, x) && good_balance(c) ==> {
                    ||| e.field == "listen_transport"@ && Some(e.value) == c.listen_transport
                    ||| e.field == "remote_transport"@ && Some(e.value) == c.remote_transport
                }
            }
        }),
{
    let n = c.extra_remotes.len() as int;
    lemma_good_remote("remote"@, c.remote, x.remote);
    law_remote_is_an_address_or_a_host_and_a_port("remote"@, c.remote, x.remote, seq![], 0);
    lemma_extras(c.extra_remotes, x, n);
    assert forall|i: int| 0 <= i < n implies good_remote(#[trigger] c.extra_remotes[i], found_at(x, i))
        == endpoint::remote_of("extra_remotes"@, c.extra_remotes[i], found_at(x, i)) is Ok by {
        lemma_good_remote("extra_remotes"@, c.extra_remotes[i], found_at(x, i));
    }
    if let Err(e) = endpoint::extra_remotes_of(c.extra_remotes, x.extra_remotes@, n) {
        let i = choose|i: int|
            0 <= i < n && {
                &&& e == endpoint::remote_of("extra_remotes"@, #[trigger] c.extra_remotes[i], found_at(x, i))->Err_0
                &&& endpoint::remote_of("extra_remotes"@, c.extra_remotes[i], found_at(x, i)) is Err
                &&& forall|j: int|
                    0 <= j < i ==> endpoint::remote_of("extra_remotes"@, #[trigger] c.extra_remotes[j], found_at(x, j))
                        is Ok
            };
        law_remote_is_an_address_or_a_host_and_a_port("extra_remotes"@, c.extra_remotes[i], found_at(x, i), seq![], 0);
        assert(e.value == c.extra_remotes[i]);
    }
}

/// A side of the transport that is not good is refused under its own field, and a
/// side that could not be set up for the reason that was found.
pub proof fn law_refused_transport_names_its_side(c: EndpointConfView, x: Lookups)
    ensures
        ({
            let t = endpoint::transport_of(c, x);
            let listen = c.listen_transport matches Some(s) && options::listen_options_error(s) is Some;
            let remote = c.remote_transport matches Some(s) && options::remote_options_error(s) is Some;
            let loads = c.remote_transport matches Some(s) && options::has_option(s, "tls"@) && options::option_value(
                s,
                "ca"@,
            ) is Some;
            &&& t is Ok <==> good_transport(c, x)
            &&& listen ==> t == Err::<Option<TransportView>, BuildErrorView>(
                BuildErrorView {
                    field: "listen_transport"@,
                    value: c.listen_transport->0,
                    reason: options::listen_options_error(c.listen_transport->0)->0,
                },
            )
            &&& !listen && remote ==> t == Err::<Option<TransportView>, BuildErrorView>(
                BuildErrorView {
                    field: "remote_transport"@,
                    value: c.remote_transport->0,
                    reason: options::remote_options_error(c.remote_transport->0)->0,
                },
            )
            &&& !listen && !remote && asks_for(c.listen_transport) && x.acceptor is Some ==> t == Err::<
                Option<TransportView>,
                BuildErrorView,
            >(
                BuildErrorView {
                    field: "listen_transport"@,
                    value: c.listen_transport->0,
                    reason: x.acceptor->0@,
                },
            )
            &&& !listen && !remote && !(asks_for(c.listen_transport) && x.acceptor is Some) && loads && x.trust is Some
                ==> t == Err::<Option<TransportView>, BuildErrorView>(
                BuildErrorView {
                    field: "remote_transport"@,
                    value: c.remote_transport->0,
                    reason: "tls: cannot load "@ + options::option_value(c.remote_transport->0, "ca"@)->0 + ": "@
                        + x.trust->0@,
                },
            )
            &&& !listen && !remote && !(asks_for(c.listen_transport) && x.acceptor is Some) && !(loads && x.trust
                is Some) && asks_for(c.remote_transport) && x.connector is Some ==> t == Err::<
                Option<TransportView>,
                BuildErrorView,
            >(
                BuildErrorView {
                    field: "remote_transport"@,
                    value: c.remote_transport->0,
                    reason: x.connector->0@,
                },
            )
        }),
{
}

/// Why a text that was not found to be an address is no remote: it has no colon,
/// what follows the last one is no port, or nothing stands before it.
pub proof fn law_bad_remotes_say_why(field: Seq<char>, s: Seq<char>, host: Seq<char>, tail: Seq<char>)
    ensures
        !s.contains(':') ==> endpoint::remote_of(field, s, None) == Err::<RemoteAddrView, BuildErrorView>(
            BuildErrorView { field, value: s, reason: "missing `:port` suffix"@ },
        ),
        s == host.push(':') + tail && !tail.contains(':') ==> {
            &&& text::parsed_number(tail, 65535) matches Err(e) ==> endpoint::remote_of(field, s, None) == Err::<
                RemoteAddrView,
                BuildErrorView,
            >(BuildErrorView { field, value: s, reason: "invalid port: "@ + text::number_error_text(e) })
            &&& text::parsed_number(tail, 65535) is Ok && host.len() == 0 ==> endpoint::remote_of(field, s, None)
                == Err::<RemoteAddrView, BuildErrorView>(
                BuildErrorView { field, value: s, reason: "missing host part"@ },
            )
        },
{
    text_laws::law_last_occurrence(s, ':');
    let at = text::last_at(s, ':');
    if s == host.push(':') + tail && !tail.contains(':') {
        let k = host.len() as int;
        assert(s[k] == ':');
        if at > k {
            assert(tail[at - k - 1] == s[at]);
            assert(tail.contains(':'));
        }
        if at < k {
            assert(s[k] != ':');
        }
        assert(s.skip(at + 1) =~= tail);
    }
}

/// A rule that does not build says which field is bad, what is written there and
/// why it is bad. That is also what its lifecycle spec is refused with.
pub proof fn law_refused_rule_says_what_is_wrong(c: EndpointConfView, x: Lookups)
    ensures
        endpoint::endpoint_of(c, x) matches Err(e) ==> endpoint::spec_of(c, x) == Err::<EndpointSpecView, Seq<char>>(
            "invalid `"@ + e.field + "` = `"@ + e.value + "`: "@ + e.reason,
        ),
        endpoint::endpoint_of(c, x) is Ok ==> endpoint::spec_of(c, x) is Ok,
        (x.listen matches Ok(addrs) && addrs@.len() == 0) ==> endpoint::endpoint_of(c, x) == Err::<
            EndpointView,
            BuildErrorView,
        >(BuildErrorView { field: "listen"@, value: c.listen, reason: "resolved to no address"@ }),
{
}

proof fn lemma_unbracketed(s: Seq<char>)
    requires
        !s.contains('['),
        !s.contains(']'),
    ensures
        endpoint::unbracketed(s) == s,
    decreases s.len(),
{
    reveal(Seq::filter);
    if s.len() > 0 {
        let t = s.drop_last();
        assert(!t.contains('[')) by {
            if t.contains('[') {
                assert(s[t.index_of('[')] == '[');
            }
        }
        assert(!t.contains(']')) by {
            if t.contains(']') {
                assert(s[t.index_of(']')] == ']');
            }
        }
        lemma_unbracketed(t);
        assert(s[s.len() - 1] != '[' && s[s.len() - 1] != ']');
        assert(t.push(s.last()) =~= s);
    }
}

/// An ip in brackets is the ip without them, and one without brackets is itself.
pub proof fn law_brackets_are_taken_off(s: Seq<char>)
    requires
        !s.contains('['),
        !s.contains(']'),
    ensures
        endpoint::unbracketed(s) == s,
        endpoint::unbracketed(seq!['['] + s + seq![']']) == s,
{
    let keep = |c: char| c != '[' && c != ']';
    lemma_unbracketed(s);
    let all = seq!['['] + s + seq![']'];
    Seq::filter_distributes_over_add(seq!['['] + s, seq![']'], keep);
    Seq::filter_distributes_over_add(seq!['['], s, keep);
    reveal_with_fuel(Seq::filter, 2);
    assert(seq!['['].drop_last() =~= Seq::empty());
    assert(seq![']'].drop_last() =~= Seq::empty());
    assert(seq!['['].filter(keep) =~= Seq::empty());
    assert(seq![']'].filter(keep) =~= Seq::empty());
    assert(endpoint::unbracketed(all) =~= s);
}

} // verus!
