//! The process-wide resolver.
//!
//! It is set up once during startup, frozen at first use and never changes
//! afterwards; a second attempt to configure it is an error. Which types
//! describe its configuration is up to the host.

use vstd::prelude::*;

use crate::endpoint::RemoteAddr;
use crate::net::{IpAddr, SocketAddr};

verus! {

/// Configuration of the resolver: its servers and its options.
#[derive(Debug)]
pub struct DnsConf<C, O> {
    pub conf: C,
    pub opts: O,
}

/// What is known of the resolver.
#[derive(Debug)]
pub struct Dns<C, O> {
    conf: Option<DnsConf<C, O>>,
    /// whether it could be built, once that was tried
    built: Option<bool>,
}

#[verifier::ext_equal]
pub struct DnsView<C, O> {
    pub conf: Option<DnsConf<C, O>>,
    pub built: Option<bool>,
}

impl<C, O> View for Dns<C, O> {
    type V = DnsView<C, O>;

    closed spec fn view(&self) -> DnsView<C, O> {
        DnsView { conf: self.conf, built: self.built }
    }
}

/// A configuration with some parts replaced.
pub open spec fn overridden<C, O>(default: DnsConf<C, O>, conf: Option<C>, opts: Option<O>) -> DnsConf<C, O> {
    DnsConf {
        conf: match conf {
            Some(c) => c,
            None => default.conf,
        },
        opts: match opts {
            Some(o) => o,
            None => default.opts,
        },
    }
}

/// The resolver after an attempt to configure it: the first attempt counts.
pub open spec fn configured<C, O>(
    dns: DnsView<C, O>,
    default: DnsConf<C, O>,
    conf: Option<C>,
    opts: Option<O>,
) -> DnsView<C, O> {
    match dns.conf {
        Some(_) => dns,
        None => DnsView { conf: Some(overridden(default, conf, opts)), ..dns },
    }
}

/// The resolver after its configuration was frozen.
pub open spec fn frozen<C, O>(dns: DnsView<C, O>, default: DnsConf<C, O>) -> DnsView<C, O> {
    configured(dns, default, None, None)
}

impl<C, O> Dns<C, O> {
    /// A resolver that was neither configured nor used.
    pub fn new() -> (r: Self)
        ensures
            r@ == (DnsView::<C, O> { conf: None, built: None }),
    {
        Dns { conf: None, built: None }
    }

    /// Freeze the configuration: the one that was installed, or the default.
    ///
    /// Gives back whether the resolver is still to be built.
    pub fn force_init(&mut self, default: DnsConf<C, O>) -> (r: bool)
        ensures
            final(self)@ == frozen(old(self)@, default),
            r == (old(self)@.built is None),
    {
        if self.conf.is_none() {
            self.conf = Some(default);
        }
        self.built.is_none()
    }

    /// Record whether the resolver could be built; only the first attempt counts.
    pub fn set_built(&mut self, ok: bool)
        ensures
            final(self)@ == (match old(self)@.built {
                Some(_) => old(self)@,
                None => DnsView { built: Some(ok), ..old(self)@ },
            }),
    {
        if self.built.is_none() {
            self.built = Some(ok);
        }
    }

    /// Whether lookups can be made; they fail when the resolver could not be
    /// built with the effective configuration.
    pub fn available(&self) -> (r: Result<(), String>)
        ensures
            r is Ok == (self@.built == Some(true)),
            r matches Err(e) ==> e@ == "dns resolver is unavailable"@,
    {
        match self.built {
            Some(true) => Ok(()),
            _ => Err("dns resolver is unavailable".to_string()),
        }
    }
}

/// Set up the configuration of the resolver, without building it.
///
/// An error if it has already been configured or used.
pub fn build_lazy<C, O>(
    dns: &mut Dns<C, O>,
    conf: Option<C>,
    opts: Option<O>,
    default: DnsConf<C, O>,
) -> (r: Result<(), String>)
    ensures
        final(dns)@ == configured(old(dns)@, default, conf, opts),
        r is Ok == (old(dns)@.conf is None),
        r matches Err(e) ==> e@ == "dns resolver is already configured"@,
{
    if dns.conf.is_some() {
        return Err("dns resolver is already configured".to_string());
    }
    let DnsConf { conf: default_conf, opts: default_opts } = default;
    let conf = match conf {
        Some(c) => c,
        None => default_conf,
    };
    let opts = match opts {
        Some(o) => o,
        None => default_opts,
    };
    dns.conf = Some(DnsConf { conf, opts });
    Ok(())
}

/// Set up the resolver. On success, tells whether it is to be built now.
///
/// An error if it has already been configured or used.
pub fn build<C, O>(
    dns: &mut Dns<C, O>,
    conf: Option<C>,
    opts: Option<O>,
    default: DnsConf<C, O>,
) -> (r: Result<bool, String>)
    ensures
        final(dns)@ == configured(old(dns)@, default, conf, opts),
        r is Ok == (old(dns)@.conf is None),
        r matches Ok(now) ==> now == (old(dns)@.built is None),
        r matches Err(e) ==> e@ == "dns resolver is already configured"@,
{
    match build_lazy(dns, conf, opts, default) {
        Ok(()) => Ok(dns.built.is_none()),
        Err(e) => Err(e),
    }
}

/// Effective configuration, once it has been frozen.
///
/// Nothing means that nothing was installed and the resolver was not used yet.
pub fn effective_conf<C, O>(dns: &Dns<C, O>) -> (r: Option<&DnsConf<C, O>>)
    ensures
        r is Some == dns@.conf is Some,
        r matches Some(c) ==> dns@.conf == Some(*c),
{
    match &dns.conf {
        Some(c) => Some(c),
        None => None,
    }
}

/// The host name to look up before connecting to a remote, if any.
pub fn name_to_resolve(addr: &RemoteAddr) -> (r: Option<&str>)
    ensures
        match r {
            Some(host) => addr@ matches crate::endpoint::RemoteAddrView::DomainName(name, _) && host@ == name,
            None => addr@ is SocketAddr,
        },
{
    match addr {
        RemoteAddr::SocketAddr(_) => None,
        RemoteAddr::DomainName(host, _) => Some(host.as_str()),
    }
}

/// The addresses to try for a remote, when its host name resolves to `ips`.
pub open spec fn resolved_addrs(addr: crate::endpoint::RemoteAddrView, ips: Seq<IpAddr>) -> Seq<SocketAddr> {
    match addr {
        crate::endpoint::RemoteAddrView::SocketAddr(a) => seq![a],
        crate::endpoint::RemoteAddrView::DomainName(_, port) => ips.map_values(
            |ip: IpAddr| SocketAddr { ip, port, flowinfo: 0, scope_id: 0 },
        ),
    }
}

/// The addresses to try for a remote, in order: itself, or what its host name
/// resolves to with its port.
pub fn resolve_addr(addr: &RemoteAddr, ips: &Vec<IpAddr>) -> (r: Vec<SocketAddr>)
    ensures
        r@ == resolved_addrs(addr@, ips@),
{
    let mut out: Vec<SocketAddr> = Vec::new();
    match addr {
        RemoteAddr::SocketAddr(a) => {
            out.push(*a);
            assert(out@ =~= resolved_addrs(addr@, ips@));
        },
        RemoteAddr::DomainName(_, port) => {
            let ghost all = resolved_addrs(addr@, ips@);
            let mut i: usize = 0;
            while i < ips.len()
                invariant
                    i <= ips@.len(),
                    all == ips@.map_values(
                        |ip: IpAddr| SocketAddr { ip, port: *port, flowinfo: 0, scope_id: 0 },
                    ),
                    out@ == all.take(i as int),
                decreases ips@.len() - i,
            {
                out.push(SocketAddr::new(ips[i], *port));
                i = i + 1;
                assert(all.take(i as int) =~= all.take(i - 1).push(all[i - 1]));
            }
            assert(all.take(i as int) =~= all);
        },
    }
    out
}

/// Once the configuration is frozen it stays: neither another attempt to
/// configure the resolver nor its use changes it.
pub proof fn law_configuration_is_frozen<C, O>(
    dns: DnsView<C, O>,
    default: DnsConf<C, O>,
    conf: Option<C>,
    opts: Option<O>,
    other: DnsConf<C, O>,
    other_conf: Option<C>,
    other_opts: Option<O>,
)
    ensures
        configured(configured(dns, default, conf, opts), other, other_conf, other_opts)
            == configured(dns, default, conf, opts),
        frozen(configured(dns, default, conf, opts), other) == configured(dns, default, conf, opts),
        configured(frozen(dns, default), other, other_conf, other_opts) == frozen(dns, default),
{
}

} // verus!
