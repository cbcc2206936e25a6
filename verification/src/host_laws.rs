//! What holds of the command line, of the resolver, of addresses as text and of
//! the way the process starts.

use vstd::prelude::*;

use crate::accept;
use crate::cmd;
use crate::cmd::RuleArgs;
use crate::conf::endpoint;
use crate::conf::endpoint::{EndpointConfView, Lookups};
use crate::conf::net::NetConf;
use crate::dns;
use crate::dns::{DnsConf, DnsView};
use crate::endpoint::{EndpointView, RemoteAddrView};
use crate::io::ErrorKind;
use crate::lifecycle::cohort;
use crate::lifecycle::cohort::{CohortView, DrainOutcome, DrainWait};
use crate::lifecycle::reconcile;
use crate::lifecycle::snapshot;
use crate::lifecycle::snapshot::FileRead;
use crate::net;
use crate::net::{IpAddr, SocketAddr};
use crate::startup;
use crate::text;
use crate::text_laws;
use crate::time::Duration;

verus! {

// ------------------------------------------------------------ command line --

/// The state is kept where it was asked for, and else in a file of its own in the
/// directory of the control socket. Without either it is not kept.
pub proof fn law_state_is_kept_beside_the_socket(given: Option<Seq<char>>, dir: Option<Seq<char>>)
    ensures
        given is Some ==> cmd::state_file_beside(given, dir) == given,
        given is None && dir is None ==> cmd::state_file_beside(given, dir) is None,
        given is None ==> (dir matches Some(d) ==> {
            &&& d.len() > 0 && d.last() != '/' ==> cmd::state_file_beside(given, dir) == Some(
                d + "/realm-state.json"@,
            )
            &&& d.len() == 0 || d.last() == '/' ==> cmd::state_file_beside(given, dir) == Some(
                d + "realm-state.json"@,
            )
        }),
{
    reveal_strlit("realm-state.json");
    reveal_strlit("/realm-state.json");
    assert("realm-state.json"@[0] == 'r');
    assert(seq!['/'] + "realm-state.json"@ =~= "/realm-state.json"@);
    if given is None && dir is Some {
        let d = dir->0;
        assert(d + seq!['/'] + "realm-state.json"@ =~= d + (seq!['/'] + "realm-state.json"@));
    }
}

/// The options of a single rule are a rule exactly if both its addresses are given,
/// and each option is in its own place. What has no option is not set.
pub proof fn law_options_of_a_rule_are_in_place(args: RuleArgs)
    ensures
        cmd::rule_of(args) is Some <==> args.local is Some && args.remote is Some,
        cmd::rule_of(args) matches Some(c) ==> {
            &&& c.listen == args.local->0@
            &&& c.remote == args.remote->0@
            &&& c.through == text::opt_text(args.through)
            &&& c.interface == text::opt_text(args.interface)
            &&& c.listen_interface == text::opt_text(args.listen_interface)
            &&& c.listen_transport == text::opt_text(args.listen_transport)
            &&& c.remote_transport == text::opt_text(args.remote_transport)
            &&& c.extra_remotes.len() == 0
            &&& c.balance is None
            &&& c.update_drain_timeout is None && c.delete_drain_timeout is None
            &&& c.material_digest is None
            &&& c.network.no_tcp is None && c.network.use_udp is None
        },
{
}

// ---------------------------------------------------------------- resolver --

/// The first attempt to configure the resolver sets what it gives, and the default
/// for the rest; a later one changes nothing. Whether it was built is not touched.
pub proof fn law_first_configuration_counts<C, O>(
    d: DnsView<C, O>,
    default: DnsConf<C, O>,
    conf: Option<C>,
    opts: Option<O>,
)
    ensures
        ({
            let n = dns::configured(d, default, conf, opts);
            &&& n.built == d.built
            &&& d.conf is Some ==> n.conf == d.conf
            &&& d.conf is None ==> {
                &&& n.conf matches Some(c)
                &&& conf matches Some(x) ==> c.conf == x
                &&& conf is None ==> c.conf == default.conf
                &&& opts matches Some(x) ==> c.opts == x
                &&& opts is None ==> c.opts == default.opts
            }
        }),
        d.conf is None ==> dns::frozen(d, default).conf == Some(default),
        d.conf is Some ==> dns::frozen(d, default) == d,
{
}

/// A remote that is an address is tried as it is. A host name is tried at each ip
/// it resolves to, in order, at the port of the remote.
pub proof fn law_addresses_to_try(addr: RemoteAddrView, ips: Seq<IpAddr>, i: int)
    ensures
        ({
            let v = dns::resolved_addrs(addr, ips);
            &&& addr matches RemoteAddrView::SocketAddr(a) ==> v == seq![a]
            &&& addr matches RemoteAddrView::DomainName(host, port) ==> {
                &&& v.len() == ips.len()
                &&& 0 <= i < ips.len() ==> v[i].ip == ips[i] && v[i].port == port && v[i].flowinfo == 0 && v[i].scope_id
                    == 0
            }
        }),
{
}

/// Without a choice, or with the first peer, a connection goes to the remote. With
/// a later one it goes to the extra remote before it in number, and nowhere if
/// there are not so many.
pub proof fn law_choice_of_a_peer(e: EndpointView, token: u8)
    ensures
        crate::endpoint::chosen_remote(e, None) == Some(e.raddr),
        crate::endpoint::chosen_remote(e, Some(0)) == Some(e.raddr),
        0 < token <= e.extra_raddrs.len() ==> crate::endpoint::chosen_remote(e, Some(token)) == Some(
            e.extra_raddrs[token - 1],
        ),
        token > e.extra_raddrs.len() && token > 0 ==> crate::endpoint::chosen_remote(e, Some(token)) is None,
{
}

// --------------------------------------------------------------- accepting --

/// Two to the power of a number.
pub open spec fn doubled(times: nat) -> nat
    decreases times,
{
    if times == 0 {
        1
    } else {
        2 * doubled((times - 1) as nat)
    }
}

/// The pause after a failed accept is 5 milliseconds, and twice as long after each
/// further failure, but never longer than 500.
pub proof fn law_pause_doubles_up_to_its_limit(failures: nat)
    ensures
        accept::pause(failures) == if 5 * doubled(failures) <= 500 {
            5 * doubled(failures)
        } else {
            500
        },
    decreases failures,
{
    if failures > 0 {
        law_pause_doubles_up_to_its_limit((failures - 1) as nat);
        assert(doubled(failures) == 2 * doubled((failures - 1) as nat));
    }
}

// ----------------------------------------------------------------- cohorts --

/// A cohort begins to drain when it is first told to, and is told to end only by a
/// cancel or by an expired deadline. Neither releases a connection. The number of
/// connections that a deadline ended is the number there was when it expired first.
pub proof fn law_cohort_keeps_count(c: CohortView, now: Duration)
    ensures
        ({
            let d = cohort::draining(c, now);
            &&& d.count == c.count && d.created == c.created && d.cancelled == c.cancelled && d.forced == c.forced
            &&& c.draining_since is Some ==> d.draining_since == c.draining_since
            &&& c.draining_since is None ==> d.draining_since == Some(now)
        }),
        ({
            let d = cohort::cancelled(c, now);
            &&& d.count == c.count && d.created == c.created && d.cancelled && d.forced == c.forced
            &&& d.draining_since is Some
        }),
        ({
            let d = cohort::expired(c, now);
            &&& d.count == c.count && d.created == c.created
            &&& c.forced is Some ==> d == c
            &&& c.forced is None ==> d.forced == Some(c.count) && d.cancelled && d.draining_since is Some
        }),
{
}

/// An empty cohort is drained, by force if a deadline expired. One that is not
/// empty waits for as long as its deadline says, and once that expired, or without
/// one, until it is empty.
pub proof fn law_what_a_drain_waits_for(c: CohortView, timeout: Option<Duration>)
    ensures
        ({
            let w = cohort::drain_wait(c, timeout);
            &&& c.count == 0 ==> (c.forced matches Some(n) ==> w == DrainWait::Over(DrainOutcome::Forced(n)))
            &&& c.count == 0 && c.forced is None ==> w == DrainWait::Over(DrainOutcome::Finished)
            &&& c.count > 0 && c.forced is Some ==> w == DrainWait::Empty
            &&& c.count > 0 && c.forced is None ==> (timeout matches Some(t) ==> w == DrainWait::AtMost(t))
            &&& c.count > 0 && c.forced is None && timeout is None ==> w == DrainWait::Empty
        }),
{
}

// --------------------------------------------------------------- addresses --

proof fn lemma_octets(a: u8, b: u8, c: u8, d: u8, ip: u32)
    requires
        ip == a * 0x100_0000 + b * 0x1_0000 + c * 0x100 + d,
    ensures
        ip / 0x100_0000 == a,
        ip / 0x1_0000 % 0x100 == b,
        ip / 0x100 % 0x100 == c,
        ip % 0x100 == d,
{
    let n = ip as int;
    let x = a * 0x1_0000 + b * 0x100 + c;
    let y = a * 0x100 + b;
    assert(n == x * 0x100 + d);
    assert(n / 0x100 == x && n % 0x100 == d);
    assert(x == y * 0x100 + c);
    assert(x / 0x100 == y && x % 0x100 == c);
    assert(y / 0x100 == a && y % 0x100 == b);
    vstd::arithmetic::div_mod::lemma_div_denominator(n, 0x100, 0x100);
    vstd::arithmetic::div_mod::lemma_div_denominator(n, 0x1_0000, 0x100);
}

/// An ipv4 address is written as its four octets, in decimal and with dots between
/// them, then a colon and the port.
pub proof fn law_ipv4_addresses_are_dotted(a: u8, b: u8, c: u8, d: u8, addr: SocketAddr)
    requires
        addr.ip == IpAddr::V4((a * 0x100_0000 + b * 0x1_0000 + c * 0x100 + d) as u32),
    ensures
        net::addr_text(addr) == text::decimal(a as nat) + seq!['.'] + text::decimal(b as nat) + seq!['.']
            + text::decimal(c as nat) + seq!['.'] + text::decimal(d as nat) + seq![':'] + text::decimal(
            addr.port as nat,
        ),
{
    let n = a * 0x100_0000 + b * 0x1_0000 + c * 0x100 + d;
    assert(0 <= n < 0x1_0000_0000);
    let ip = n as u32;
    lemma_octets(a, b, c, d, ip);
    assert(net::addr_text(addr) =~= text::decimal(a as nat) + seq!['.'] + text::decimal(b as nat) + seq!['.']
        + text::decimal(c as nat) + seq!['.'] + text::decimal(d as nat) + seq![':'] + text::decimal(addr.port as nat));
}

proof fn lemma_mapped(n: int, ip: u128)
    requires
        0 <= n < 0x1_0000_0000,
        ip == 0xffff_0000_0000 + n,
    ensures
        ip / 0x1_0000_0000 == 0xffff,
        ip % 0x1_0000_0000 == n,
{
}

/// An ipv6 address that maps an ipv4 one is written with the latter dotted.
pub proof fn law_mapped_addresses_are_dotted(a: u8, b: u8, c: u8, d: u8, addr: SocketAddr)
    requires
        addr.ip == IpAddr::V6((0xffff_0000_0000 + a * 0x100_0000 + b * 0x1_0000 + c * 0x100 + d) as u128),
        addr.scope_id == 0,
    ensures
        net::addr_text(addr) == seq!['[', ':', ':', 'f', 'f', 'f', 'f', ':'] + text::decimal(a as nat) + seq!['.']
            + text::decimal(b as nat) + seq!['.'] + text::decimal(c as nat) + seq!['.'] + text::decimal(d as nat)
            + seq![']', ':'] + text::decimal(addr.port as nat),
{
    let n = a * 0x100_0000 + b * 0x1_0000 + c * 0x100 + d;
    let ip = (0xffff_0000_0000 + n) as u128;
    assert(0 <= n < 0x1_0000_0000);
    let low = n as u32;
    lemma_mapped(n, ip);
    lemma_octets(a, b, c, d, low);
    let dotted = text::decimal(a as nat) + seq!['.'] + text::decimal(b as nat) + seq!['.'] + text::decimal(c as nat)
        + seq!['.'] + text::decimal(d as nat);
    assert(net::v4_text(low) =~= dotted);
    assert(net::v6_text(ip) == seq![':', ':', 'f', 'f', 'f', 'f', ':'] + net::v4_text(low));
    assert(net::addr_text(addr) =~= seq!['[', ':', ':', 'f', 'f', 'f', 'f', ':'] + text::decimal(a as nat) + seq!['.']
        + text::decimal(b as nat) + seq!['.'] + text::decimal(c as nat) + seq!['.'] + text::decimal(d as nat)
        + seq![']', ':'] + text::decimal(addr.port as nat));
}

/// The groups of an ipv6 address are written in hexadecimal, with colons between
/// them, the first before the others.
pub proof fn law_groups_are_written_in_order(g: Seq<u16>, from: int, to: int)
    requires
        0 <= from < to <= g.len(),
    ensures
        to == from + 1 ==> net::groups_text(g, from, to) == text::numeral(g[from] as nat, 16),
        to > from + 1 ==> net::groups_text(g, from, to) == text::numeral(g[from] as nat, 16) + seq![':']
            + net::groups_text(g, from + 1, to),
        g[from] < 10 ==> text::numeral(g[from] as nat, 16) == seq![('0' as int + g[from]) as char],
        10 <= g[from] < 16 ==> text::numeral(g[from] as nat, 16) == seq![('a' as int + g[from] - 10) as char],
        g[from] >= 16 ==> text::numeral(g[from] as nat, 16) == text::numeral(g[from] as nat / 16, 16)
            + text::numeral(g[from] as nat % 16, 16),
{
    let n = g[from] as nat;
    if to > from + 1 {
        assert(net::groups_text(g, from, to) =~= text::numeral(n, 16) + seq![':'] + net::groups_text(g, from + 1, to));
    }
    if n >= 16 {
        assert(text::numeral(n % 16, 16) == seq![text::digit((n % 16) as int)]);
        assert(text::numeral(n, 16) =~= text::numeral(n / 16, 16) + text::numeral(n % 16, 16));
    }
}

/// A row of zero groups ends at the first group that is not zero.
pub proof fn law_row_of_zeros_ends_at_the_first_other(g: Seq<u16>, i: int)
    requires
        0 <= i <= g.len(),
    ensures
        0 <= net::zeros_from(g, i) <= g.len() - i,
        forall|j: int| i <= j < i + net::zeros_from(g, i) ==> #[trigger] g[j] == 0,
        i + net::zeros_from(g, i) < g.len() ==> g[i + net::zeros_from(g, i)] != 0,
    decreases g.len() - i,
{
    if i < g.len() && g[i] == 0 {
        law_row_of_zeros_ends_at_the_first_other(g, i + 1);
    }
}

/// The row of zero groups that is left out is a longest one, and of several the
/// first.
pub proof fn law_first_longest_row_of_zeros_is_left_out(g: Seq<u16>, n: int, i: int)
    requires
        0 <= i < n <= g.len(),
    ensures
        0 <= net::longest_zeros(g, n) < n,
        net::zeros_from(g, i) <= net::zeros_from(g, net::longest_zeros(g, n)),
        i < net::longest_zeros(g, n) ==> net::zeros_from(g, i) < net::zeros_from(g, net::longest_zeros(g, n)),
    decreases n,
{
    if n > 1 {
        law_first_longest_row_of_zeros_is_left_out(g, n - 1, 0);
        if i < n - 1 {
            law_first_longest_row_of_zeros_is_left_out(g, n - 1, i);
        }
    }
}

/// The groups of an ipv6 address are its bits, sixteen at a time, the highest
/// first.
pub proof fn law_groups_are_the_bits_of_the_address(ip: u128)
    ensures
        net::groups(ip).len() == 8,
        ip == net::groups(ip)[7] + 0x1_0000 * (net::groups(ip)[6] + 0x1_0000 * (net::groups(ip)[5] + 0x1_0000 * (
        net::groups(ip)[4] + 0x1_0000 * (net::groups(ip)[3] + 0x1_0000 * (net::groups(ip)[2] + 0x1_0000 * (
        net::groups(ip)[1] + 0x1_0000 * net::groups(ip)[0])))))),
{
    let x = ip as int;
    vstd::arithmetic::div_mod::lemma_div_denominator(x, 0x1_0000, 0x1_0000);
    vstd::arithmetic::div_mod::lemma_div_denominator(x, 0x1_0000_0000, 0x1_0000);
    vstd::arithmetic::div_mod::lemma_div_denominator(x, 0x1_0000_0000_0000, 0x1_0000);
    vstd::arithmetic::div_mod::lemma_div_denominator(x, 0x1_0000_0000_0000_0000, 0x1_0000);
    vstd::arithmetic::div_mod::lemma_div_denominator(x, 0x1_0000_0000_0000_0000_0000, 0x1_0000);
    vstd::arithmetic::div_mod::lemma_div_denominator(x, 0x1_0000_0000_0000_0000_0000_0000, 0x1_0000);
    let x1 = x / 0x1_0000;
    let x2 = x / 0x1_0000_0000;
    let x3 = x / 0x1_0000_0000_0000;
    let x4 = x / 0x1_0000_0000_0000_0000;
    let x5 = x / 0x1_0000_0000_0000_0000_0000;
    let x6 = x / 0x1_0000_0000_0000_0000_0000_0000;
    let x7 = x / 0x1_0000_0000_0000_0000_0000_0000_0000;
    assert(x2 == x1 / 0x1_0000);
    assert(x3 == x2 / 0x1_0000);
    assert(x4 == x3 / 0x1_0000);
    assert(x5 == x4 / 0x1_0000);
    assert(x6 == x5 / 0x1_0000);
    assert(x7 == x6 / 0x1_0000);
    let g = net::groups(ip);
    assert(0 <= x7 < 0x1_0000);
    assert(g[0] == x7);
    assert(g[1] == x6 % 0x1_0000);
    assert(g[2] == x5 % 0x1_0000);
    assert(g[3] == x4 % 0x1_0000);
    assert(g[4] == x3 % 0x1_0000);
    assert(g[5] == x2 % 0x1_0000);
    assert(g[6] == x1 % 0x1_0000);
    assert(g[7] == x % 0x1_0000);
    assert(x6 == g[1] + 0x1_0000 * g[0]);
    assert(x5 == g[2] + 0x1_0000 * x6);
    assert(x4 == g[3] + 0x1_0000 * x5);
    assert(x3 == g[4] + 0x1_0000 * x4);
    assert(x2 == g[5] + 0x1_0000 * x3);
    assert(x1 == g[6] + 0x1_0000 * x2);
    assert(x == g[7] + 0x1_0000 * x1);
}

/// An ipv6 address is written in brackets, with its scope after a percent sign if
/// it has one, then a colon and the port. Without a row of two zero groups all its
/// groups are written, and with one the row is left out between two colons.
pub proof fn law_ipv6_addresses_are_bracketed(addr: SocketAddr, ip: u128)
    requires
        addr.ip == IpAddr::V6(ip),
        ip / 0x1_0000_0000 != 0xffff,
    ensures
        ({
            let g = net::groups(ip);
            let at = net::longest_zeros(g, 8);
            let n = net::zeros_from(g, at);
            let host = if n > 1 {
                net::groups_text(g, 0, at) + seq![':', ':'] + net::groups_text(g, at + n, 8)
            } else {
                net::groups_text(g, 0, 8)
            };
            let scope = if addr.scope_id == 0 {
                Seq::empty()
            } else {
                seq!['%'] + text::decimal(addr.scope_id as nat)
            };
            net::addr_text(addr) == seq!['['] + host + scope + seq![']', ':'] + text::decimal(addr.port as nat)
        }),
{
    let g = net::groups(ip);
    let at = net::longest_zeros(g, 8);
    let n = net::zeros_from(g, at);
    let host = if n > 1 {
        net::groups_text(g, 0, at) + seq![':', ':'] + net::groups_text(g, at + n, 8)
    } else {
        net::groups_text(g, 0, 8)
    };
    let scope = if addr.scope_id == 0 {
        Seq::empty()
    } else {
        seq!['%'] + text::decimal(addr.scope_id as nat)
    };
    assert(net::v6_text(ip) =~= host);
    assert(net::addr_text(addr) =~= seq!['['] + host + scope + seq![']', ':'] + text::decimal(addr.port as nat));
}

// ---------------------------------------------------------------- starting --

/// A rule of the static configuration stands for itself, normalized, under the id
/// of the address and the protocols it builds. One that does not build stands for
/// nothing, for the reason it does not.
pub proof fn law_static_rule_stands_for_itself(c: EndpointConfView, global: NetConf, x: Lookups)
    ensures
        ({
            let normal = endpoint::normalized(c, global);
            let d = startup::static_endpoint_of(c, global, x);
            &&& endpoint::spec_of(normal, x) matches Err(e) ==> d is Err && d->Err_0 == e
            &&& endpoint::spec_of(normal, x) matches Ok(s) ==> {
                &&& d is Ok
                &&& d->Ok_0.spec == normal
                &&& d->Ok_0.id == reconcile::derived_id(s.endpoint.laddr, s.tcp, s.udp)
            }
        }),
{
}

/// Why a snapshot file is refused. One that is missing is not refused, nor is one
/// of version 1.
pub proof fn law_refused_snapshots_say_why<S>(path: Seq<char>, read: FileRead<S>)
    ensures
        ({
            let e = snapshot::load_error(path, read);
            &&& read matches FileRead::Failed(f) ==> {
                &&& f.kind == ErrorKind::NotFound ==> e is None
                &&& f.kind != ErrorKind::NotFound ==> e is Some && e->0.kind == f.kind && e->0.message
                    == "failed to read "@ + snapshot::debug_text(path) + ": "@ + f.message@
            }
            &&& read matches FileRead::Malformed(f) ==> e is Some && e->0.kind == ErrorKind::Other && e->0.message
                == "failed to parse "@ + snapshot::debug_text(path) + ": "@ + f@
            &&& read matches FileRead::Parsed(f) ==> {
                &&& f.version == 1 ==> e is None
                &&& f.version != 1 ==> e is Some && e->0.kind == ErrorKind::Other && e->0.message
                    == "unsupported snapshot version "@ + text::decimal(f.version as nat) + " in "@
                    + snapshot::debug_text(path) + ", expected "@ + text::decimal(1)
            }
        }),
{
}

/// A temporary file is named after the file it is to replace, and no two that one
/// process writes for it are named alike.
pub proof fn law_temporary_files_have_names_of_their_own(base: Seq<char>, process: u32, one: u64, other: u64)
    ensures
        snapshot::temp_name(base, process, one).take(base.len() as int) == base,
        snapshot::temp_name(base, process, one).len() > base.len(),
        one != other ==> snapshot::temp_name(base, process, one) != snapshot::temp_name(base, process, other),
{
    let head = base + "."@ + text::decimal(process as nat) + "."@;
    let a = text::decimal(one as nat);
    let b = text::decimal(other as nat);
    let tail = ".tmp"@;
    let x = snapshot::temp_name(base, process, one);
    let y = snapshot::temp_name(base, process, other);
    text_laws::law_decimal_is_digits(process as nat);
    assert(x =~= head + a + tail);
    assert(y =~= head + b + tail);
    assert(x.take(base.len() as int) =~= base);
    if x == y {
        assert(a.len() == b.len()) by {
            assert(x.len() == head.len() + a.len() + tail.len());
            assert(y.len() == head.len() + b.len() + tail.len());
        }
        assert(a =~= x.subrange(head.len() as int, (head.len() + a.len()) as int));
        assert(b =~= y.subrange(head.len() as int, (head.len() + b.len()) as int));
        text_laws::law_decimal_is_unique(one as nat, other as nat);
    }
}

/// The pause grows to twice what it was, up to 500 milliseconds.
pub proof fn law_next_pause_is_twice_as_long(millis: u64)
    ensures
        2 * millis <= 500 ==> accept::longer(millis) == 2 * millis,
        2 * millis > 500 ==> accept::longer(millis) == 500,
{
}

/// The directory of the control socket is the parent of its path.
pub proof fn law_socket_is_in_its_parent(socket: Option<Seq<char>>)
    ensures
        socket is None ==> cmd::socket_dir(socket) is None,
        socket matches Some(path) ==> cmd::socket_dir(socket) == cmd::path_parent(path),
{
}

/// A second is a thousand million nanoseconds.
pub proof fn law_second_has_its_nanoseconds(d: Duration)
    ensures
        d.total_nanos() == d.secs * 1_000_000_000 + d.nanos,
        d.is_normal() <==> d.nanos < 1_000_000_000,
        crate::time::no_time().total_nanos() == 0,
{
}

/// A snapshot is missing exactly if reading it found no file.
pub proof fn law_missing_means_not_found<S>(read: FileRead<S>)
    ensures
        snapshot::is_missing(read) <==> (read matches FileRead::Failed(e) && e.kind == ErrorKind::NotFound),
{
}

/// A process that was told nothing knows none of its settings.
pub proof fn law_nothing_is_known_at_first()
    ensures
        ({
            let s = crate::process::no_settings();
            &&& s.log_level is None && s.log_output is None
            &&& s.nofile is None && s.pipe_page is None && s.pre_conn_hook is None
        }),
{
}

/// An absolute path stays as it is below any directory, and any other follows the
/// directory, with a slash between them unless there is one already.
pub proof fn law_path_below_a_directory(dir: Seq<char>, name: Seq<char>)
    ensures
        name.len() > 0 && name[0] == '/' ==> cmd::path_join(dir, name) == name,
        !(name.len() > 0 && name[0] == '/') && dir.len() > 0 && dir.last() != '/' ==> cmd::path_join(dir, name)
            == dir.push('/') + name,
        !(name.len() > 0 && name[0] == '/') && (dir.len() == 0 || dir.last() == '/') ==> cmd::path_join(dir, name)
            == dir + name,
{
    assert(dir + seq!['/'] =~= dir.push('/'));
}

} // verus!
