//! Socket addresses and their text form.

use vstd::prelude::*;
use vstd::string::*;

use crate::text::push_number;

verus! {

/// An ip address, as the number its bits spell in network order.
#[derive(Debug, Clone, Copy, PartialEq, Eq, Structural)]
pub enum IpAddr {
    V4(u32),
    V6(u128),
}

/// A socket address.
#[derive(Debug, Clone, Copy, PartialEq, Eq, Structural)]
pub struct SocketAddr {
    pub ip: IpAddr,
    pub port: u16,
    /// ipv6 only
    pub flowinfo: u32,
    /// ipv6 only; zero when the address is not scoped
    pub scope_id: u32,
}

impl SocketAddr {
    /// An address without flow information or scope.
    pub fn new(ip: IpAddr, port: u16) -> (r: Self)
        ensures
            r == (SocketAddr { ip, port, flowinfo: 0, scope_id: 0 }),
    {
        SocketAddr { ip, port, flowinfo: 0, scope_id: 0 }
    }

    /// `a.b.c.d:port`.
    pub fn v4(a: u8, b: u8, c: u8, d: u8, port: u16) -> (r: Self)
        ensures
            r.ip == IpAddr::V4((a * 0x100_0000 + b * 0x1_0000 + c * 0x100 + d) as u32),
            r.port == port,
            r.flowinfo == 0,
            r.scope_id == 0,
    {
        let ip: u32 = a as u32 * 0x100_0000 + b as u32 * 0x1_0000 + c as u32 * 0x100 + d as u32;
        SocketAddr::new(IpAddr::V4(ip), port)
    }

    /// Whether two addresses name the same ip and port, whatever their scope.
    pub fn same_ip_port(&self, other: &Self) -> (r: bool)
        ensures
            r == (self.ip == other.ip && self.port == other.port),
    {
        self.port == other.port && self.ip == other.ip
    }

    /// The address as text: `a.b.c.d:port` or `[v6]:port`, the latter with
    /// `%scope` after the ip when the address is scoped.
    pub fn render(&self) -> (r: String)
        ensures
            r@ == addr_text(*self),
    {
        let mut r = String::new();
        match self.ip {
            IpAddr::V4(ip) => {
                push_v4(&mut r, ip);
            },
            IpAddr::V6(ip) => {
                r.push('[');
                push_v6(&mut r, ip);
                if self.scope_id != 0 {
                    r.push('%');
                    push_number(&mut r, self.scope_id as u64, 10);
                }
                r.push(']');
            },
        }
        r.push(':');
        push_number(&mut r, self.port as u64, 10);
        assert(r@ =~= addr_text(*self));
        r
    }
}

impl IpAddr {
    /// The address as text.
    pub fn render(&self) -> (r: String)
        ensures
            r@ == ip_text(*self),
    {
        let mut r = String::new();
        match *self {
            IpAddr::V4(ip) => {
                push_v4(&mut r, ip);
            },
            IpAddr::V6(ip) => {
                push_v6(&mut r, ip);
            },
        }
        assert(r@ =~= ip_text(*self));
        r
    }
}

/// The text of an ip.
pub open spec fn ip_text(ip: IpAddr) -> Seq<char> {
    match ip {
        IpAddr::V4(ip) => v4_text(ip),
        IpAddr::V6(ip) => v6_text(ip),
    }
}

/// Four decimal octets with dots between them.
pub open spec fn v4_text(ip: u32) -> Seq<char> {
    crate::text::decimal((ip / 0x100_0000) as nat).push('.') + crate::text::decimal(
        (ip / 0x1_0000 % 0x100) as nat,
    ).push('.') + crate::text::decimal((ip / 0x100 % 0x100) as nat).push('.') + crate::text::decimal(
        (ip % 0x100) as nat,
    )
}

/// The eight 16-bit groups of an ipv6 address.
pub open spec fn groups(ip: u128) -> Seq<u16> {
    seq![
        (ip / 0x1_0000_0000_0000_0000_0000_0000_0000) as u16,
        (ip / 0x1_0000_0000_0000_0000_0000_0000 % 0x1_0000) as u16,
        (ip / 0x1_0000_0000_0000_0000_0000 % 0x1_0000) as u16,
        (ip / 0x1_0000_0000_0000_0000 % 0x1_0000) as u16,
        (ip / 0x1_0000_0000_0000 % 0x1_0000) as u16,
        (ip / 0x1_0000_0000 % 0x1_0000) as u16,
        (ip / 0x1_0000 % 0x1_0000) as u16,
        (ip % 0x1_0000) as u16,
    ]
}

/// Number of zero groups in a row from `i` on.
pub open spec fn zeros_from(g: Seq<u16>, i: int) -> int
    decreases g.len() - i,
{
    if 0 <= i < g.len() && g[i] == 0 {
        1 + zeros_from(g, i + 1)
    } else {
        0
    }
}

/// Where the longest row of zero groups among the first `n` starts; of two
/// rows of one length the first.
pub open spec fn longest_zeros(g: Seq<u16>, n: int) -> int
    decreases n,
{
    if n <= 1 {
        0
    } else {
        let before = longest_zeros(g, n - 1);
        if zeros_from(g, n - 1) > zeros_from(g, before) {
            n - 1
        } else {
            before
        }
    }
}

/// Groups `from..to` in hexadecimal with colons between them.
pub open spec fn groups_text(g: Seq<u16>, from: int, to: int) -> Seq<char>
    decreases to - from,
{
    if from >= to {
        Seq::empty()
    } else if from + 1 == to {
        crate::text::numeral(g[from] as nat, 16)
    } else {
        crate::text::numeral(g[from] as nat, 16).push(':') + groups_text(g, from + 1, to)
    }
}

/// The canonical text of an ipv6 address: an ipv4-mapped one ends in dotted
/// decimal, any other has its longest row of at least two zero groups written
/// as `::`.
pub open spec fn v6_text(ip: u128) -> Seq<char> {
    let g = groups(ip);
    let at = longest_zeros(g, 8);
    let n = zeros_from(g, at);
    if ip / 0x1_0000_0000 == 0xffff {
        seq![':', ':', 'f', 'f', 'f', 'f', ':'] + v4_text((ip % 0x1_0000_0000) as u32)
    } else if n > 1 {
        groups_text(g, 0, at).push(':').push(':') + groups_text(g, at + n, 8)
    } else {
        groups_text(g, 0, 8)
    }
}

/// The text of a socket address.
pub open spec fn addr_text(a: SocketAddr) -> Seq<char> {
    let host = match a.ip {
        IpAddr::V4(ip) => v4_text(ip),
        IpAddr::V6(ip) => {
            let scope = if a.scope_id == 0 {
                Seq::empty()
            } else {
                seq!['%'] + crate::text::decimal(a.scope_id as nat)
            };
            (seq!['['] + v6_text(ip) + scope).push(']')
        },
    };
    host.push(':') + crate::text::decimal(a.port as nat)
}

fn push_v4(out: &mut String, ip: u32)
    ensures
        final(out)@ == old(out)@ + v4_text(ip),
{
    push_number(out, (ip / 0x100_0000) as u64, 10);
    out.push('.');
    push_number(out, (ip / 0x1_0000 % 0x100) as u64, 10);
    out.push('.');
    push_number(out, (ip / 0x100 % 0x100) as u64, 10);
    out.push('.');
    push_number(out, (ip % 0x100) as u64, 10);
    assert(out@ =~= old(out)@ + v4_text(ip));
}

fn split_groups(ip: u128) -> (r: Vec<u16>)
    ensures
        r@ == groups(ip),
{
    let mut r: Vec<u16> = Vec::new();
    r.push((ip / 0x1_0000_0000_0000_0000_0000_0000_0000) as u16);
    r.push((ip / 0x1_0000_0000_0000_0000_0000_0000 % 0x1_0000) as u16);
    r.push((ip / 0x1_0000_0000_0000_0000_0000 % 0x1_0000) as u16);
    r.push((ip / 0x1_0000_0000_0000_0000 % 0x1_0000) as u16);
    r.push((ip / 0x1_0000_0000_0000 % 0x1_0000) as u16);
    r.push((ip / 0x1_0000_0000 % 0x1_0000) as u16);
    r.push((ip / 0x1_0000 % 0x1_0000) as u16);
    r.push((ip % 0x1_0000) as u16);
    assert(r@ =~= groups(ip));
    r
}

fn count_zeros(g: &Vec<u16>, i: usize) -> (r: usize)
    requires
        i <= g@.len(),
    ensures
        r == zeros_from(g@, i as int),
        r <= g@.len() - i,
    decreases g@.len() - i,
{
    if i < g.len() && g[i] == 0 {
        1 + count_zeros(g, i + 1)
    } else {
        0
    }
}

fn push_groups(out: &mut String, g: &Vec<u16>, from: usize, to: usize)
    requires
        to <= g@.len(),
    ensures
        final(out)@ == old(out)@ + groups_text(g@, from as int, to as int),
    decreases to - from,
{
    if from < to {
        push_number(out, g[from] as u64, 16);
        if from + 1 < to {
            out.push(':');
            push_groups(out, g, from + 1, to);
        }
    }
    assert(out@ =~= old(out)@ + groups_text(g@, from as int, to as int));
}

fn push_v6(out: &mut String, ip: u128)
    ensures
        final(out)@ == old(out)@ + v6_text(ip),
{
    if ip / 0x1_0000_0000 == 0xffff {
        out.push(':');
        out.push(':');
        out.push('f');
        out.push('f');
        out.push('f');
        out.push('f');
        out.push(':');
        push_v4(out, (ip % 0x1_0000_0000) as u32);
        assert(out@ =~= old(out)@ + v6_text(ip));
        return;
    }
    let g = split_groups(ip);
    let mut at: usize = 0;
    let mut n: usize = 1;
    while n < 8
        invariant
            g@.len() == 8,
            1 <= n <= 8,
            at < n,
            at == longest_zeros(g@, n as int),
        decreases 8 - n,
    {
        if count_zeros(&g, n) > count_zeros(&g, at) {
            at = n;
        }
        n = n + 1;
    }
    let len = count_zeros(&g, at);
    if len > 1 {
        push_groups(out, &g, 0, at);
        out.push(':');
        out.push(':');
        push_groups(out, &g, at + len, 8);
    } else {
        push_groups(out, &g, 0, 8);
    }
    assert(out@ =~= old(out)@ + v6_text(ip));
}

} // verus!
