//! What one relay rule listens on and where it forwards to.

use vstd::prelude::*;

use crate::net::SocketAddr;
use crate::text::{dup_opt, same_opt, same_text};

verus! {

/// Where connections are forwarded to.
#[derive(Debug)]
pub enum RemoteAddr {
    SocketAddr(SocketAddr),
    DomainName(String, u16),
}

pub enum RemoteAddrView {
    SocketAddr(SocketAddr),
    DomainName(Seq<char>, u16),
}

impl View for RemoteAddr {
    type V = RemoteAddrView;

    open spec fn view(&self) -> RemoteAddrView {
        match self {
            RemoteAddr::SocketAddr(a) => RemoteAddrView::SocketAddr(*a),
            RemoteAddr::DomainName(host, port) => RemoteAddrView::DomainName(host@, *port),
        }
    }
}

impl Clone for RemoteAddr {
    fn clone(&self) -> (r: Self)
        ensures
            r@ == self@,
    {
        match self {
            RemoteAddr::SocketAddr(a) => RemoteAddr::SocketAddr(*a),
            RemoteAddr::DomainName(host, port) => RemoteAddr::DomainName(host.clone(), *port),
        }
    }
}

impl RemoteAddr {
    /// Whether two remotes are the same.
    pub fn same(&self, other: &Self) -> (r: bool)
        ensures
            r == (self@ == other@),
    {
        match (self, other) {
            (RemoteAddr::SocketAddr(a), RemoteAddr::SocketAddr(b)) => *a == *b,
            (RemoteAddr::DomainName(h, p), RemoteAddr::DomainName(k, q)) => *p == *q && same_text(
                h.as_str(),
                k.as_str(),
            ),
            _ => false,
        }
    }
}

/// The remotes of a list.
pub open spec fn remotes(v: Seq<RemoteAddr>) -> Seq<RemoteAddrView> {
    Seq::new(v.len(), |i: int| v[i]@)
}

/// The same list of remotes again.
pub fn dup_remotes(v: &Vec<RemoteAddr>) -> (r: Vec<RemoteAddr>)
    ensures
        remotes(r@) == remotes(v@),
{
    let mut r: Vec<RemoteAddr> = Vec::new();
    let mut i: usize = 0;
    while i < v.len()
        invariant
            i <= v@.len(),
            remotes(r@) == remotes(v@).take(i as int),
        decreases v@.len() - i,
    {
        let ghost before = r@;
        r.push(v[i].clone());
        i = i + 1;
        assert(remotes(r@) =~= remotes(before).push(v@[i - 1]@));
        assert(remotes(r@) =~= remotes(v@).take(i as int));
    }
    assert(remotes(v@).take(i as int) =~= remotes(v@));
    r
}

fn same_remotes(a: &Vec<RemoteAddr>, b: &Vec<RemoteAddr>) -> (r: bool)
    ensures
        r == (remotes(a@) == remotes(b@)),
{
    if a.len() != b.len() {
        assert(remotes(a@).len() != remotes(b@).len());
        return false;
    }
    let mut i: usize = 0;
    while i < a.len()
        invariant
            i <= a@.len(),
            a@.len() == b@.len(),
            forall|j: int| 0 <= j < i ==> #[trigger] remotes(a@)[j] == remotes(b@)[j],
        decreases a@.len() - i,
    {
        if !a[i].same(&b[i]) {
            assert(remotes(a@)[i as int] != remotes(b@)[i as int]);
            return false;
        }
        i = i + 1;
    }
    assert(remotes(a@) =~= remotes(b@));
    true
}

/// Socket options of a listener.
#[derive(Debug, Clone, Copy, PartialEq, Eq, Structural)]
pub struct ListenOpts {
    pub ipv6_only: bool,
    pub accept_mptcp: bool,
    pub accept_proxy: bool,
    /// seconds to wait for a proxy header
    pub accept_proxy_timeout: u64,
}

/// How a listener is bound.
#[derive(Debug)]
pub struct BindOpts {
    pub listen: ListenOpts,
    pub bind_interface: Option<String>,
}

pub struct BindOptsView {
    pub listen: ListenOpts,
    pub bind_interface: Option<Seq<char>>,
}

impl View for BindOpts {
    type V = BindOptsView;

    open spec fn view(&self) -> BindOptsView {
        BindOptsView { listen: self.listen, bind_interface: crate::text::opt_text(self.bind_interface) }
    }
}

impl Clone for BindOpts {
    fn clone(&self) -> (r: Self)
        ensures
            r@ == self@,
    {
        BindOpts { listen: self.listen, bind_interface: dup_opt(&self.bind_interface) }
    }
}

impl Default for BindOpts {
    fn default() -> (r: Self)
        ensures
            r@ == (BindOptsView {
                listen: (ListenOpts {
                    ipv6_only: false,
                    accept_mptcp: false,
                    accept_proxy: false,
                    accept_proxy_timeout: 5,
                }),
                bind_interface: None,
            }),
    {
        BindOpts {
            listen: ListenOpts {
                ipv6_only: false,
                accept_mptcp: false,
                accept_proxy: false,
                accept_proxy_timeout: 5,
            },
            bind_interface: None,
        }
    }
}

/// Socket options of outgoing connections; times are in seconds.
#[derive(Debug, Clone, Copy, PartialEq, Eq, Structural)]
pub struct DialOpts {
    pub connect_timeout: u64,
    pub associate_timeout: u64,
    pub tcp_keepalive: u64,
    pub tcp_keepalive_probe: u64,
    pub send_mptcp: bool,
    pub send_proxy: bool,
    pub send_proxy_version: u64,
}

/// Transport options of a rule, as written.
#[derive(Debug)]
pub struct Transport {
    pub listen: Option<String>,
    pub remote: Option<String>,
}

pub struct TransportView {
    pub listen: Option<Seq<char>>,
    pub remote: Option<Seq<char>>,
}

impl View for Transport {
    type V = TransportView;

    open spec fn view(&self) -> TransportView {
        TransportView { listen: crate::text::opt_text(self.listen), remote: crate::text::opt_text(self.remote) }
    }
}

pub open spec fn opt_transport(t: Option<Transport>) -> Option<TransportView> {
    match t {
        Some(t) => Some(t@),
        None => None,
    }
}

fn dup_transport(t: &Option<Transport>) -> (r: Option<Transport>)
    ensures
        opt_transport(r) == opt_transport(*t),
{
    match t {
        Some(t) => Some(Transport { listen: dup_opt(&t.listen), remote: dup_opt(&t.remote) }),
        None => None,
    }
}

fn same_transport(a: &Option<Transport>, b: &Option<Transport>) -> (r: bool)
    ensures
        r == (opt_transport(*a) == opt_transport(*b)),
{
    match (a, b) {
        (Some(a), Some(b)) => same_opt(&a.listen, &b.listen) && same_opt(&a.remote, &b.remote),
        (None, None) => true,
        _ => false,
    }
}

/// How a remote is connected to.
#[derive(Debug)]
pub struct ConnectOpts {
    pub dial: DialOpts,
    pub bind_address: Option<SocketAddr>,
    pub bind_interface: Option<String>,
    /// `strategy: weight, ...`; absent when the remotes are not balanced
    pub balance: Option<String>,
    pub transport: Option<Transport>,
}

pub struct ConnectOptsView {
    pub dial: DialOpts,
    pub bind_address: Option<SocketAddr>,
    pub bind_interface: Option<Seq<char>>,
    pub balance: Option<Seq<char>>,
    pub transport: Option<TransportView>,
}

impl View for ConnectOpts {
    type V = ConnectOptsView;

    open spec fn view(&self) -> ConnectOptsView {
        ConnectOptsView {
            dial: self.dial,
            bind_address: self.bind_address,
            bind_interface: crate::text::opt_text(self.bind_interface),
            balance: crate::text::opt_text(self.balance),
            transport: opt_transport(self.transport),
        }
    }
}

impl Clone for ConnectOpts {
    fn clone(&self) -> (r: Self)
        ensures
            r@ == self@,
    {
        ConnectOpts {
            dial: self.dial,
            bind_address: self.bind_address,
            bind_interface: dup_opt(&self.bind_interface),
            balance: dup_opt(&self.balance),
            transport: dup_transport(&self.transport),
        }
    }
}

impl Default for ConnectOpts {
    fn default() -> (r: Self)
        ensures
            r@ == (ConnectOptsView {
                dial: (DialOpts {
                    connect_timeout: 5,
                    associate_timeout: 30,
                    tcp_keepalive: 15,
                    tcp_keepalive_probe: 3,
                    send_mptcp: false,
                    send_proxy: false,
                    send_proxy_version: 2,
                }),
                bind_address: None,
                bind_interface: None,
                balance: None,
                transport: None,
            }),
    {
        ConnectOpts {
            dial: DialOpts {
                connect_timeout: 5,
                associate_timeout: 30,
                tcp_keepalive: 15,
                tcp_keepalive_probe: 3,
                send_mptcp: false,
                send_proxy: false,
                send_proxy_version: 2,
            },
            bind_address: None,
            bind_interface: None,
            balance: None,
            transport: None,
        }
    }
}

/// One relay rule.
#[derive(Debug)]
pub struct Endpoint {
    pub laddr: SocketAddr,
    pub raddr: RemoteAddr,
    pub bind_opts: BindOpts,
    pub conn_opts: ConnectOpts,
    pub extra_raddrs: Vec<RemoteAddr>,
}

pub struct EndpointView {
    pub laddr: SocketAddr,
    pub raddr: RemoteAddrView,
    pub bind_opts: BindOptsView,
    pub conn_opts: ConnectOptsView,
    pub extra_raddrs: Seq<RemoteAddrView>,
}

impl View for Endpoint {
    type V = EndpointView;

    open spec fn view(&self) -> EndpointView {
        EndpointView {
            laddr: self.laddr,
            raddr: self.raddr@,
            bind_opts: self.bind_opts@,
            conn_opts: self.conn_opts@,
            extra_raddrs: remotes(self.extra_raddrs@),
        }
    }
}

impl Clone for Endpoint {
    fn clone(&self) -> (r: Self)
        ensures
            r@ == self@,
    {
        Endpoint {
            laddr: self.laddr,
            raddr: self.raddr.clone(),
            bind_opts: self.bind_opts.clone(),
            conn_opts: self.conn_opts.clone(),
            extra_raddrs: dup_remotes(&self.extra_raddrs),
        }
    }
}

fn same_addr(a: &Option<SocketAddr>, b: &Option<SocketAddr>) -> (r: bool)
    ensures
        r == (*a == *b),
{
    match (a, b) {
        (Some(a), Some(b)) => *a == *b,
        (None, None) => true,
        _ => false,
    }
}

/// The remote a balancer's choice stands for: the first peer is the remote
/// itself, as is no choice at all, and the others are the extra remotes.
pub open spec fn chosen_remote(e: EndpointView, token: Option<u8>) -> Option<RemoteAddrView> {
    match token {
        None => Some(e.raddr),
        Some(t) => if t == 0 {
            Some(e.raddr)
        } else if t <= e.extra_raddrs.len() {
            Some(e.extra_raddrs[t - 1])
        } else {
            None
        },
    }
}

impl Endpoint {
    /// The remote a connection goes to, given what the balancer chose for it.
    pub fn select_remote(&self, token: Option<u8>) -> (r: Result<&RemoteAddr, String>)
        ensures
            match r {
                Ok(a) => chosen_remote(self@, token) == Some(a@),
                Err(e) => chosen_remote(self@, token) is None && e@ == "balancer selected an unknown remote"@,
            },
    {
        match token {
            None => Ok(&self.raddr),
            Some(t) => if t == 0 {
                Ok(&self.raddr)
            } else if (t as usize) <= self.extra_raddrs.len() {
                Ok(&self.extra_raddrs[t as usize - 1])
            } else {
                Err("balancer selected an unknown remote".to_string())
            },
        }
    }

    /// Whether two rules are the same in every respect.
    pub fn same(&self, other: &Self) -> (r: bool)
        ensures
            r == (self@ == other@),
    {
        let a = &self.conn_opts;
        let b = &other.conn_opts;
        self.laddr == other.laddr && self.raddr.same(&other.raddr) && self.bind_opts.listen
            == other.bind_opts.listen && same_opt(&self.bind_opts.bind_interface, &other.bind_opts.bind_interface)
            && a.dial == b.dial && same_addr(&a.bind_address, &b.bind_address) && same_opt(
            &a.bind_interface,
            &b.bind_interface,
        ) && same_opt(&a.balance, &b.balance) && same_transport(&a.transport, &b.transport) && same_remotes(
            &self.extra_raddrs,
            &other.extra_raddrs,
        )
    }
}

} // verus!
