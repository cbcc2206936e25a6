//! The legacy configuration format: lists of addresses and port ranges.

use vstd::prelude::*;
use vstd::string::*;

use crate::conf::endpoint::{EndpointConf, EndpointConfView};
use crate::conf::error::{BuildError, BuildErrorView};
use crate::text;
use crate::text::{chars_of, find_char, parse_number, push_number, slice, string_of, trim_chars};

verus! {

/// Addresses and ports by position. A list of addresses or remote ports that is
/// too short is padded with its first item.
#[derive(Debug)]
pub struct LegacyConf {
    pub listen_addrs: Vec<String>,
    pub listen_ports: Vec<String>,
    pub remote_addrs: Vec<String>,
    pub remote_ports: Vec<String>,
}

#[verifier::ext_equal]
pub struct LegacyConfView {
    pub listen_addrs: Seq<Seq<char>>,
    pub listen_ports: Seq<Seq<char>>,
    pub remote_addrs: Seq<Seq<char>>,
    pub remote_ports: Seq<Seq<char>>,
}

impl View for LegacyConf {
    type V = LegacyConfView;

    open spec fn view(&self) -> LegacyConfView {
        LegacyConfView {
            listen_addrs: text::texts(self.listen_addrs@),
            listen_ports: text::texts(self.listen_ports@),
            remote_addrs: text::texts(self.remote_addrs@),
            remote_ports: text::texts(self.remote_ports@),
        }
    }
}

pub open spec fn legacy_error(field: Seq<char>, value: Seq<char>, reason: Seq<char>) -> BuildErrorView {
    BuildErrorView { field, value, reason }
}

/// A port, with blanks around it.
pub open spec fn port_of(field: Seq<char>, s: Seq<char>) -> Result<u16, BuildErrorView> {
    match text::parsed_number(text::trim(s), 65535) {
        Ok(n) => Ok(n as u16),
        Err(e) => Err(legacy_error(field, s, "not a valid port: "@ + text::number_error_text(e))),
    }
}

/// The first and last port of `first-last`, or of a single port.
pub open spec fn range_of(field: Seq<char>, range: Seq<char>) -> Result<(u16, u16), BuildErrorView> {
    let at = text::first_at(range, '-');
    match port_of(field, range.take(at)) {
        Err(e) => Err(e),
        Ok(start) => if at >= range.len() {
            Ok((start, start))
        } else {
            match port_of(field, range.skip(at + 1)) {
                Err(e) => Err(e),
                Ok(end) => if end < start {
                    Err(legacy_error(field, range, "port range ends before it starts"@))
                } else {
                    Ok((start, end))
                },
            }
        },
    }
}

/// The ports from one to another, both counted.
pub open spec fn ports_between(start: u16, end: u16) -> Seq<u16> {
    Seq::new((end - start + 1) as nat, |i: int| (start + i) as u16)
}

/// The ports of all ranges in order, or what is wrong with the first bad range.
pub open spec fn ports_of(field: Seq<char>, ranges: Seq<Seq<char>>) -> Result<Seq<u16>, BuildErrorView>
    decreases ranges.len(),
{
    if ranges.len() == 0 {
        Ok(Seq::empty())
    } else {
        match ports_of(field, ranges.drop_last()) {
            Err(e) => Err(e),
            Ok(before) => match range_of(field, ranges.last()) {
                Err(e) => Err(e),
                Ok((start, end)) => Ok(before + ports_between(start, end)),
            },
        }
    }
}

/// The item at a position, or the first one past the end.
pub open spec fn padded<T>(s: Seq<T>, i: int) -> T {
    if i < s.len() {
        s[i]
    } else {
        s[0]
    }
}

pub open spec fn address(addr: Seq<char>, port: u16) -> Seq<char> {
    addr + ":"@ + text::decimal(port as nat)
}

/// Addresses and ports put together, `len` of them.
pub open spec fn joined(addrs: Seq<Seq<char>>, ports: Seq<u16>, len: nat) -> Seq<Seq<char>> {
    Seq::new(len, |i: int| address(padded(addrs, i), padded(ports, i)))
}

pub open spec fn addresses_of(
    field: Seq<char>,
    addrs: Seq<Seq<char>>,
    ports: Seq<u16>,
    len: nat,
) -> Result<Seq<Seq<char>>, BuildErrorView> {
    if ports.len() == 0 {
        Err(legacy_error(field, ""@, "no port given"@))
    } else if addrs.len() == 0 {
        Err(legacy_error(field, ""@, "no address given"@))
    } else {
        Ok(joined(addrs, ports, len))
    }
}

/// The rules a legacy configuration means: one for each listening port.
pub open spec fn rules_of(c: LegacyConfView) -> Result<Seq<EndpointConfView>, BuildErrorView> {
    match ports_of("listening_ports"@, c.listen_ports) {
        Err(e) => Err(e),
        Ok(listen_ports) => match ports_of("remote_ports"@, c.remote_ports) {
            Err(e) => Err(e),
            Ok(remote_ports) => match addresses_of(
                "listening_addresses"@,
                c.listen_addrs,
                listen_ports,
                listen_ports.len(),
            ) {
                Err(e) => Err(e),
                Ok(listen) => match addresses_of(
                    "remote_addresses"@,
                    c.remote_addrs,
                    remote_ports,
                    listen_ports.len(),
                ) {
                    Err(e) => Err(e),
                    Ok(remote) => Ok(
                        Seq::new(
                            listen_ports.len(),
                            |i: int| crate::conf::endpoint::plain_conf(listen[i], remote[i]),
                        ),
                    ),
                },
            },
        },
    }
}

pub open spec fn conf_views(v: Seq<EndpointConf>) -> Seq<EndpointConfView> {
    v.map_values(|c: EndpointConf| c@)
}

fn parse_port_chars(field: &'static str, v: &Vec<char>) -> (r: Result<u16, BuildError>)
    ensures
        (match r {
            Ok(p) => Ok(p),
            Err(e) => Err(e@),
        }) == port_of(field@, v@),
{
    match parse_number(&trim_chars(v), 65535) {
        Ok(n) => Ok(n as u16),
        Err(e) => {
            let mut reason = "not a valid port: ".to_string();
            reason.append(e.text());
            Err(BuildError::new(field, string_of(v).as_str(), reason))
        },
    }
}

/// A port, with blanks around it.
pub fn parse_port(field: &'static str, s: &str) -> (r: Result<u16, BuildError>)
    ensures
        (match r {
            Ok(p) => Ok(p),
            Err(e) => Err(e@),
        }) == port_of(field@, s@),
{
    parse_port_chars(field, &chars_of(s))
}

fn parse_range(field: &'static str, range: &str) -> (r: Result<(u16, u16), BuildError>)
    ensures
        (match r {
            Ok(p) => Ok(p),
            Err(e) => Err(e@),
        }) == range_of(field@, range@),
        r matches Ok(p) ==> p.0 <= p.1,
{
    let v = chars_of(range);
    let at = find_char(&v, '-');
    let head = slice(&v, 0, at);
    assert(head@ =~= range@.take(at as int));
    let start: u16 = match parse_port_chars(field, &head) {
        Ok(p) => p,
        Err(e) => {
            return Err(e);
        },
    };
    if at >= v.len() {
        return Ok((start, start));
    }
    let tail = slice(&v, at + 1, v.len());
    assert(tail@ =~= range@.skip(at + 1));
    let end: u16 = match parse_port_chars(field, &tail) {
        Ok(p) => p,
        Err(e) => {
            return Err(e);
        },
    };
    if end < start {
        return Err(BuildError::new(field, range, "port range ends before it starts".to_string()));
    }
    Ok((start, end))
}

fn push_ports(flat: &mut Vec<u16>, start: u16, end: u16)
    requires
        start <= end,
    ensures
        final(flat)@ == old(flat)@ + ports_between(start, end),
{
    let mut p: u16 = start;
    let ghost all = ports_between(start, end);
    while p < end
        invariant
            start <= p <= end,
            all == ports_between(start, end),
            flat@ == old(flat)@ + all.take(p - start),
        decreases end - p,
    {
        flat.push(p);
        assert(all.take(p - start + 1) =~= all.take(p - start).push(p));
        p = p + 1;
    }
    flat.push(end);
    assert(all =~= all.take(p - start).push(end));
}

proof fn lemma_ports_stay_refused(field: Seq<char>, ranges: Seq<Seq<char>>, n: int)
    requires
        0 <= n <= ranges.len(),
        ports_of(field, ranges.take(n)) is Err,
    ensures
        ports_of(field, ranges) == ports_of(field, ranges.take(n)),
    decreases ranges.len() - n,
{
    if n == ranges.len() {
        assert(ranges.take(n) =~= ranges);
    } else {
        assert(ranges.take(n + 1).drop_last() =~= ranges.take(n));
        lemma_ports_stay_refused(field, ranges, n + 1);
    }
}

/// The ports of all ranges in order.
pub fn flatten_ports(field: &'static str, ports: Vec<String>) -> (r: Result<Vec<u16>, BuildError>)
    ensures
        (match r {
            Ok(v) => Ok(v@),
            Err(e) => Err(e@),
        }) == ports_of(field@, text::texts(ports@)),
{
    let ghost ranges = text::texts(ports@);
    let mut flat: Vec<u16> = Vec::new();
    let mut i: usize = 0;
    assert(ranges.take(0) =~= Seq::empty());
    while i < ports.len()
        invariant
            i <= ports@.len(),
            ranges == text::texts(ports@),
            ports_of(field@, ranges.take(i as int)) == Ok::<Seq<u16>, BuildErrorView>(flat@),
        decreases ports@.len() - i,
    {
        proof {
            assert(ranges.take(i + 1).drop_last() =~= ranges.take(i as int));
            assert(ranges.take(i + 1).last() == ports@[i as int]@);
        }
        match parse_range(field, ports[i].as_str()) {
            Ok((start, end)) => {
                push_ports(&mut flat, start, end);
            },
            Err(e) => {
                proof {
                    lemma_ports_stay_refused(field@, ranges, i + 1);
                }
                return Err(e);
            },
        }
        i = i + 1;
    }
    assert(ranges.take(i as int) =~= ranges);
    Ok(flat)
}

/// Addresses and ports put together by position, `len` of them; a list that is
/// too short is padded with its first item.
pub fn join_addr_port(
    addr_field: &'static str,
    addrs: Vec<String>,
    ports: Vec<u16>,
    len: usize,
) -> (r: Result<Vec<String>, BuildError>)
    ensures
        (match r {
            Ok(v) => Ok(text::texts(v@)),
            Err(e) => Err(e@),
        }) == addresses_of(addr_field@, text::texts(addrs@), ports@, len as nat),
{
    if ports.len() == 0 {
        return Err(BuildError::new(addr_field, "", "no port given".to_string()));
    }
    if addrs.len() == 0 {
        return Err(BuildError::new(addr_field, "", "no address given".to_string()));
    }
    let ghost all = joined(text::texts(addrs@), ports@, len as nat);
    let mut out: Vec<String> = Vec::new();
    let mut i: usize = 0;
    assert(text::texts(out@) =~= all.take(0));
    while i < len
        invariant
            i <= len,
            ports@.len() > 0,
            addrs@.len() > 0,
            all == joined(text::texts(addrs@), ports@, len as nat),
            text::texts(out@) == all.take(i as int),
        decreases len - i,
    {
        let mut s = if i < addrs.len() {
            addrs[i].clone()
        } else {
            addrs[0].clone()
        };
        let port: u16 = if i < ports.len() {
            ports[i]
        } else {
            ports[0]
        };
        s.append(":");
        push_number(&mut s, port as u64, 10);
        let ghost before = out@;
        assert(s@ == all[i as int]);
        out.push(s);
        i = i + 1;
        assert(text::texts(out@) =~= text::texts(before).push(s@));
        assert(all.take(i as int) =~= all.take(i - 1).push(all[i - 1]));
    }
    assert(all.take(i as int) =~= all);
    Ok(out)
}

impl LegacyConf {
    /// The rules this configuration means: one for each listening port.
    pub fn into_rules(self) -> (r: Result<Vec<EndpointConf>, BuildError>)
        ensures
            (match r {
                Ok(v) => Ok(conf_views(v@)),
                Err(e) => Err(e@),
            }) == rules_of(self@),
    {
        let listen_ports = match flatten_ports("listening_ports", self.listen_ports) {
            Ok(v) => v,
            Err(e) => {
                return Err(e);
            },
        };
        let remote_ports = match flatten_ports("remote_ports", self.remote_ports) {
            Ok(v) => v,
            Err(e) => {
                return Err(e);
            },
        };
        let len: usize = listen_ports.len();
        let listen = match join_addr_port("listening_addresses", self.listen_addrs, listen_ports, len) {
            Ok(v) => v,
            Err(e) => {
                return Err(e);
            },
        };
        let remote = match join_addr_port("remote_addresses", self.remote_addrs, remote_ports, len) {
            Ok(v) => v,
            Err(e) => {
                return Err(e);
            },
        };
        let ghost all = rules_of(self@)->Ok_0;
        assert(text::texts(listen@).len() == len && text::texts(remote@).len() == len);
        let mut out: Vec<EndpointConf> = Vec::new();
        let mut i: usize = 0;
        assert(conf_views(out@) =~= all.take(0));
        while i < len
            invariant
                i <= len,
                listen@.len() == len,
                remote@.len() == len,
                all.len() == len,
                forall|k: int|
                    0 <= k < len ==> #[trigger] all[k] == crate::conf::endpoint::plain_conf(
                        listen@[k]@,
                        remote@[k]@,
                    ),
                conf_views(out@) == all.take(i as int),
            decreases len - i,
        {
            let c = EndpointConf::plain(listen[i].clone(), remote[i].clone());
            let ghost before = out@;
            out.push(c);
            i = i + 1;
            assert(conf_views(out@) =~= conf_views(before).push(c@));
            assert(all.take(i as int) =~= all.take(i - 1).push(all[i - 1]));
        }
        assert(all.take(i as int) =~= all);
        Ok(out)
    }
}

/// There is one rule for each listening port, and it listens on that port.
pub proof fn law_one_rule_per_listening_port(c: LegacyConfView)
    requires
        rules_of(c) is Ok,
    ensures
        ports_of("listening_ports"@, c.listen_ports) matches Ok(ports) && rules_of(c)->Ok_0.len() == ports.len() && (
        forall|i: int|
            0 <= i < ports.len() ==> (#[trigger] rules_of(c)->Ok_0[i]).listen == address(
                padded(c.listen_addrs, i),
                ports[i],
            )),
{
}

/// With as many addresses and remote ports as listening ports nothing is padded:
/// each rule is made of the items at its own position.
pub proof fn law_full_lists_are_paired(c: LegacyConfView, i: int)
    requires
        rules_of(c) is Ok,
        ports_of("listening_ports"@, c.listen_ports)->Ok_0.len() == c.listen_addrs.len(),
        ports_of("remote_ports"@, c.remote_ports)->Ok_0.len() == c.listen_addrs.len(),
        c.remote_addrs.len() == c.listen_addrs.len(),
        0 <= i < c.listen_addrs.len(),
    ensures
        rules_of(c)->Ok_0[i] == crate::conf::endpoint::plain_conf(
            address(c.listen_addrs[i], ports_of("listening_ports"@, c.listen_ports)->Ok_0[i]),
            address(c.remote_addrs[i], ports_of("remote_ports"@, c.remote_ports)->Ok_0[i]),
        ),
{
}

} // verus!
