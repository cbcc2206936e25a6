//! Network options of a rule, and the process-wide defaults for them.

use vstd::prelude::*;

use crate::endpoint::{DialOpts, ListenOpts};

verus! {

/// Seconds to wait for a tcp connection.
pub const TCP_TIMEOUT: u64 = 5;

/// Seconds an idle udp association is kept.
pub const UDP_TIMEOUT: u64 = 30;

/// Seconds between tcp keepalive probes.
pub const TCP_KEEPALIVE: u64 = 15;

/// Unanswered keepalive probes before a connection is given up.
pub const TCP_KEEPALIVE_PROBE: u64 = 3;

/// Version of the proxy protocol that is sent.
pub const PROXY_PROTOCOL_VERSION: u64 = 2;

/// Seconds to wait for a proxy protocol header.
pub const PROXY_PROTOCOL_TIMEOUT: u64 = 5;

/// Network options; what is absent is taken from elsewhere.
#[derive(Debug, Clone, Copy, PartialEq, Eq, Structural)]
pub struct NetConf {
    pub no_tcp: Option<bool>,
    pub use_udp: Option<bool>,
    pub ipv6_only: Option<bool>,
    pub tcp_timeout: Option<u64>,
    pub udp_timeout: Option<u64>,
    pub tcp_keepalive: Option<u64>,
    pub tcp_keepalive_probe: Option<u64>,
    pub send_mptcp: Option<bool>,
    pub accept_mptcp: Option<bool>,
    pub send_proxy: Option<bool>,
    pub send_proxy_version: Option<u64>,
    pub accept_proxy: Option<bool>,
    pub accept_proxy_timeout: Option<u64>,
}

/// What network options build.
#[derive(Debug, Clone, Copy, PartialEq, Eq, Structural)]
pub struct NetInfo {
    pub listen: ListenOpts,
    pub dial: DialOpts,
    pub no_tcp: bool,
    pub use_udp: bool,
}

/// No option at all.
pub open spec fn no_options() -> NetConf {
    NetConf {
        no_tcp: None,
        use_udp: None,
        ipv6_only: None,
        tcp_timeout: None,
        udp_timeout: None,
        tcp_keepalive: None,
        tcp_keepalive_probe: None,
        send_mptcp: None,
        accept_mptcp: None,
        send_proxy: None,
        send_proxy_version: None,
        accept_proxy: None,
        accept_proxy_timeout: None,
    }
}

/// The first of two values that is there.
pub open spec fn either<T>(a: Option<T>, b: Option<T>) -> Option<T> {
    if a is Some {
        a
    } else {
        b
    }
}

/// The value, or what stands for it when it is absent.
pub open spec fn value_or<T>(a: Option<T>, default: T) -> T {
    match a {
        Some(x) => x,
        None => default,
    }
}

/// Options with the absent ones filled in from others.
pub open spec fn filled_in(a: NetConf, b: NetConf) -> NetConf {
    NetConf {
        no_tcp: either(a.no_tcp, b.no_tcp),
        use_udp: either(a.use_udp, b.use_udp),
        ipv6_only: either(a.ipv6_only, b.ipv6_only),
        tcp_timeout: either(a.tcp_timeout, b.tcp_timeout),
        udp_timeout: either(a.udp_timeout, b.udp_timeout),
        tcp_keepalive: either(a.tcp_keepalive, b.tcp_keepalive),
        tcp_keepalive_probe: either(a.tcp_keepalive_probe, b.tcp_keepalive_probe),
        send_mptcp: either(a.send_mptcp, b.send_mptcp),
        accept_mptcp: either(a.accept_mptcp, b.accept_mptcp),
        send_proxy: either(a.send_proxy, b.send_proxy),
        send_proxy_version: either(a.send_proxy_version, b.send_proxy_version),
        accept_proxy: either(a.accept_proxy, b.accept_proxy),
        accept_proxy_timeout: either(a.accept_proxy_timeout, b.accept_proxy_timeout),
    }
}

/// What options build, with the defaults for those that are absent.
pub open spec fn net_info(c: NetConf) -> NetInfo {
    NetInfo {
        listen: ListenOpts {
            ipv6_only: value_or(c.ipv6_only, false),
            accept_mptcp: value_or(c.accept_mptcp, false),
            accept_proxy: value_or(c.accept_proxy, false),
            accept_proxy_timeout: value_or(c.accept_proxy_timeout, PROXY_PROTOCOL_TIMEOUT),
        },
        dial: DialOpts {
            connect_timeout: value_or(c.tcp_timeout, TCP_TIMEOUT),
            associate_timeout: value_or(c.udp_timeout, UDP_TIMEOUT),
            tcp_keepalive: value_or(c.tcp_keepalive, TCP_KEEPALIVE),
            tcp_keepalive_probe: value_or(c.tcp_keepalive_probe, TCP_KEEPALIVE_PROBE),
            send_mptcp: value_or(c.send_mptcp, false),
            send_proxy: value_or(c.send_proxy, false),
            send_proxy_version: value_or(c.send_proxy_version, PROXY_PROTOCOL_VERSION),
        },
        no_tcp: value_or(c.no_tcp, false),
        use_udp: value_or(c.use_udp, false),
    }
}

fn pick<T: Copy>(a: Option<T>, b: Option<T>) -> (r: Option<T>)
    ensures
        r == either(a, b),
{
    match a {
        Some(_) => a,
        None => b,
    }
}

impl Default for NetConf {
    fn default() -> (r: Self)
        ensures
            r == no_options(),
    {
        NetConf {
            no_tcp: None,
            use_udp: None,
            ipv6_only: None,
            tcp_timeout: None,
            udp_timeout: None,
            tcp_keepalive: None,
            tcp_keepalive_probe: None,
            send_mptcp: None,
            accept_mptcp: None,
            send_proxy: None,
            send_proxy_version: None,
            accept_proxy: None,
            accept_proxy_timeout: None,
        }
    }
}

impl NetConf {
    /// Whether no option is given.
    pub fn is_empty(&self) -> (r: bool)
        ensures
            r == (*self == no_options()),
    {
        *self == NetConf::default()
    }

    /// Fill in the options that are absent.
    pub fn take_field(&mut self, other: &Self)
        ensures
            *final(self) == filled_in(*old(self), *other),
    {
        *self = NetConf {
            no_tcp: pick(self.no_tcp, other.no_tcp),
            use_udp: pick(self.use_udp, other.use_udp),
            ipv6_only: pick(self.ipv6_only, other.ipv6_only),
            tcp_timeout: pick(self.tcp_timeout, other.tcp_timeout),
            udp_timeout: pick(self.udp_timeout, other.udp_timeout),
            tcp_keepalive: pick(self.tcp_keepalive, other.tcp_keepalive),
            tcp_keepalive_probe: pick(self.tcp_keepalive_probe, other.tcp_keepalive_probe),
            send_mptcp: pick(self.send_mptcp, other.send_mptcp),
            accept_mptcp: pick(self.accept_mptcp, other.accept_mptcp),
            send_proxy: pick(self.send_proxy, other.send_proxy),
            send_proxy_version: pick(self.send_proxy_version, other.send_proxy_version),
            accept_proxy: pick(self.accept_proxy, other.accept_proxy),
            accept_proxy_timeout: pick(self.accept_proxy_timeout, other.accept_proxy_timeout),
        };
    }

    /// Override the options that are given elsewhere.
    pub fn rst_field(&mut self, other: &Self)
        ensures
            *final(self) == filled_in(*other, *old(self)),
    {
        let mut merged = *other;
        merged.take_field(self);
        *self = merged;
    }

    /// The options a listener and its connections are made with.
    pub fn build(self) -> (r: NetInfo)
        ensures
            r == net_info(self),
    {
        NetInfo {
            listen: ListenOpts {
                ipv6_only: self.ipv6_only.unwrap_or(false),
                accept_mptcp: self.accept_mptcp.unwrap_or(false),
                accept_proxy: self.accept_proxy.unwrap_or(false),
                accept_proxy_timeout: self.accept_proxy_timeout.unwrap_or(PROXY_PROTOCOL_TIMEOUT),
            },
            dial: DialOpts {
                connect_timeout: self.tcp_timeout.unwrap_or(TCP_TIMEOUT),
                associate_timeout: self.udp_timeout.unwrap_or(UDP_TIMEOUT),
                tcp_keepalive: self.tcp_keepalive.unwrap_or(TCP_KEEPALIVE),
                tcp_keepalive_probe: self.tcp_keepalive_probe.unwrap_or(TCP_KEEPALIVE_PROBE),
                send_mptcp: self.send_mptcp.unwrap_or(false),
                send_proxy: self.send_proxy.unwrap_or(false),
                send_proxy_version: self.send_proxy_version.unwrap_or(PROXY_PROTOCOL_VERSION),
            },
            no_tcp: self.no_tcp.unwrap_or(false),
            use_udp: self.use_udp.unwrap_or(false),
        }
    }
}

/// Filling in twice is filling in once.
pub proof fn law_filling_in_is_idempotent(a: NetConf, b: NetConf)
    ensures
        filled_in(filled_in(a, b), b) == filled_in(a, b),
{
}

} // verus!
