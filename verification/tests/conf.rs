//! Structured configuration validation.
//!
//! Building an endpoint from user input must never panic: every rejection is a
//! structured error naming the offending field.

use realm::conf::endpoint::{strip_brackets, EndpointConf, EndpointInfo, Lookups};
use realm::conf::error::BuildError;
use realm::conf::material::Material;
use realm::conf::net::NetConf;
use realm::endpoint::RemoteAddr;
use realm::lifecycle::plan::EndpointSource;
use realm::lifecycle::types::DrainPolicy;
use realm::net::{IpAddr, SocketAddr};
use realm::time::Duration;

/// A dotted address with a port, as it stands.
fn addr(s: &str) -> Option<SocketAddr> {
    let (ip, port) = s.rsplit_once(':')?;
    let mut octets = Vec::new();
    for part in ip.split('.') {
        octets.push(part.parse::<u8>().ok()?);
    }
    if octets.len() != 4 {
        return None;
    }
    Some(SocketAddr::v4(octets[0], octets[1], octets[2], octets[3], port.parse().ok()?))
}

fn lookups(conf: &EndpointConf) -> Lookups {
    Lookups {
        listen: match addr(&conf.listen) {
            Some(a) => Ok(vec![a]),
            None => Err(String::from("invalid socket address")),
        },
        remote: addr(&conf.remote),
        extra_remotes: conf.extra_remotes.iter().map(|r| addr(r)).collect(),
        through: None,
        through_ip: Err(String::from("invalid IP address syntax")),
        trust: None,
        acceptor: None,
        connector: None,
    }
}

fn build(conf: &EndpointConf) -> Result<EndpointInfo, BuildError> {
    conf.build(&lookups(conf))
}

fn endpoint(listen: &str, remote: &str) -> EndpointConf {
    EndpointConf::plain(listen.to_string(), remote.to_string())
}

fn plain_endpoint() -> EndpointConf {
    endpoint("127.0.0.1:10000", "127.0.0.1:20000")
}

#[test]
fn invalid_listen_address_reports_field() {
    let ep = endpoint("definitely not an address", "127.0.0.1:20000");

    let err = build(&ep).expect_err("invalid listen address must be rejected");
    let msg = err.message();
    assert!(msg.contains("listen"), "error should name the field: {}", msg);
    assert_eq!(
        msg,
        "invalid `listen` = `definitely not an address`: cannot be resolved: invalid socket address"
    );
}

#[test]
fn invalid_remote_port_reports_field() {
    let ep = endpoint("127.0.0.1:10000", "example.com:not-a-port");

    let err = build(&ep).expect_err("invalid remote port must be rejected");
    let msg = err.message();
    assert!(msg.contains("remote"), "error should name the field: {}", msg);
    assert_eq!(
        msg,
        "invalid `remote` = `example.com:not-a-port`: invalid port: invalid digit found in string"
    );
}

#[test]
fn invalid_extra_remote_reports_field() {
    let mut ep = plain_endpoint();
    ep.extra_remotes = vec![String::from("no-port-here")];

    let err = build(&ep).expect_err("invalid extra remote must be rejected");
    let msg = err.message();
    assert!(msg.contains("extra_remotes"), "error should name the field: {}", msg);
    assert_eq!(msg, "invalid `extra_remotes` = `no-port-here`: missing `:port` suffix");
}

#[test]
fn valid_endpoint_builds_expected_addresses() {
    let mut ep = endpoint("127.0.0.1:10000", "example.com:20000");
    ep.extra_remotes = vec![String::from("127.0.0.1:20001")];

    let info = build(&ep).expect("valid endpoint must build");
    assert_eq!(info.endpoint.laddr, SocketAddr::v4(127, 0, 0, 1, 10000));
    assert!(info.endpoint.raddr.same(&RemoteAddr::DomainName("example.com".to_string(), 20000)));
    assert_eq!(info.endpoint.extra_raddrs.len(), 1);
    assert!(info.endpoint.extra_raddrs[0].same(&RemoteAddr::SocketAddr(SocketAddr::v4(127, 0, 0, 1, 20001))));
    assert!(!info.no_tcp);
    assert!(!info.use_udp);
}

#[test]
fn balance_without_strategy_separator_reports_field() {
    let mut ep = plain_endpoint();
    ep.balance = Some(String::from("roundrobin"));

    let err = build(&ep).expect_err("a balance value with no `:` must be rejected");
    assert!(err.message().contains("balance"), "{}", err.message());
    assert_eq!(err.reason, "expected `strategy: weight, ...`");
}

#[test]
fn balance_unknown_strategy_is_rejected_not_panicking() {
    let mut ep = plain_endpoint();
    ep.balance = Some(String::from("nonsense: 1"));

    let err = build(&ep).expect_err("an unknown balance strategy must be rejected, not panic");
    assert!(err.message().contains("balance"), "{}", err.message());
    assert_eq!(err.reason, "unknown strategy `nonsense` (expected off, iphash or roundrobin)");
}

#[test]
fn balance_weight_count_mismatch_reports_field() {
    // one remote (no extra_remotes) but three weights.
    let mut ep = plain_endpoint();
    ep.balance = Some(String::from("roundrobin: 1, 2, 3"));

    let err = build(&ep).expect_err("a weight count that does not match the remotes must be rejected");
    assert!(err.message().contains("balance"), "{}", err.message());
    assert_eq!(err.reason, "expected 1 weights for `remote` plus 0 `extra_remotes`, got 3");
}

#[test]
fn valid_balance_still_builds() {
    let mut ep = plain_endpoint();
    ep.extra_remotes = vec![String::from("127.0.0.1:20001")];
    ep.balance = Some(String::from("roundrobin: 1, 2"));

    let info = build(&ep).expect("a well-formed balance value must still build");
    assert_eq!(info.endpoint.conn_opts.balance.as_deref(), Some("roundrobin: 1, 2"));
}

#[test]
fn balance_weights_are_counted_as_the_balancer_counts_them() {
    let weights = |n: usize| (0..n).map(|_| "1").collect::<Vec<_>>().join(",");
    let with = |balance: String, extra: usize| {
        let mut ep = plain_endpoint();
        ep.extra_remotes = (0..extra).map(|_| String::from("127.0.0.1:20001")).collect();
        ep.balance = Some(balance);
        build(&ep).map(|_| ()).map_err(|e| e.reason)
    };
    // blank items do not count, and a list of none is no list
    assert_eq!(with(String::from("iphash: 1, 2, "), 1), Ok(()));
    assert_eq!(with(String::from("iphash:"), 1), Ok(()));
    assert_eq!(with(String::from("off:"), 1), Ok(()));
    assert_eq!(with(String::from(" roundrobin :255,+7"), 1), Ok(()));
    // a weight is a number below 256
    assert_eq!(with(String::from("iphash: 1, 256"), 1), Err(String::from("contains an invalid weight")));
    assert_eq!(with(String::from("iphash: 1, x"), 1), Err(String::from("contains an invalid weight")));
    // a balancer that is off has no peers to give weights to
    assert_eq!(with(String::from("off: 1, 2"), 1), Err(String::from("contains an invalid weight")));
    // as many as a balancer can hold, and one more
    assert_eq!(with(format!("iphash: {}", weights(255)), 254), Ok(()));
    assert_eq!(
        with(format!("iphash: {}", weights(256)), 255),
        Err(String::from("contains an invalid weight"))
    );
}

#[test]
fn malformed_listen_transport_is_rejected_not_panicking() {
    // the `ws` option is present but host and path are missing.
    let mut ep = plain_endpoint();
    ep.listen_transport = Some(String::from("ws"));

    let err = build(&ep).expect_err("a malformed listen transport must be rejected, not panic");
    assert!(err.message().contains("listen_transport"), "{}", err.message());
}

#[test]
fn malformed_remote_transport_is_rejected_not_panicking() {
    // `tls` is present but `sni` is missing.
    let mut ep = plain_endpoint();
    ep.remote_transport = Some(String::from("tls"));

    let err = build(&ep).expect_err("a malformed remote transport must be rejected, not panic");
    assert!(err.message().contains("remote_transport"), "{}", err.message());
}

#[test]
fn an_endpoint_naming_no_transport_still_builds() {
    // the transport path is optional: an endpoint that names neither a listen
    // nor a remote transport must build without going near tls at all.
    let info = build(&plain_endpoint()).expect("an endpoint with no transport must still build");
    assert!(info.endpoint.conn_opts.transport.is_none());
}

#[test]
fn valid_transport_still_builds() {
    let mut ep = plain_endpoint();
    ep.listen_transport = Some(String::from("ws;host=example.com;path=/tunnel"));

    let info = build(&ep).expect("a well-formed transport value must still build");
    let transport = info.endpoint.conn_opts.transport.expect("a transport was asked for");
    assert_eq!(transport.listen.as_deref(), Some("ws;host=example.com;path=/tunnel"));
    assert!(transport.remote.is_none());
}

#[test]
fn the_listen_side_needs_cert_and_key_or_a_servername() {
    let with = |s: &str| {
        let mut ep = plain_endpoint();
        ep.listen_transport = Some(s.to_string());
        build(&ep).map(|_| ()).map_err(|e| e.reason)
    };
    assert_eq!(with("tls;cert=/c"), Err(String::from("tls: require cert and key or servername")));
    assert_eq!(with("tls;cert=/c;key=/k"), Ok(()));
    assert_eq!(with("tls;servername=example.com"), Ok(()));
    assert_eq!(with("ws;host=example.com"), Err(String::from("ws: require host and path")));
}

// ----------------------------------------------------------------- addresses --

#[test]
fn an_address_that_resolves_to_nothing_is_refused() {
    let ep = plain_endpoint();
    let mut x = lookups(&ep);
    x.listen = Ok(Vec::new());
    assert_eq!(ep.build(&x).unwrap_err().reason, "resolved to no address");
}

#[test]
fn the_first_address_is_listened_on() {
    let ep = plain_endpoint();
    let mut x = lookups(&ep);
    x.listen = Ok(vec![SocketAddr::v4(10, 0, 0, 1, 1), SocketAddr::v4(10, 0, 0, 2, 2)]);
    assert_eq!(ep.build(&x).unwrap().endpoint.laddr, SocketAddr::v4(10, 0, 0, 1, 1));
}

#[test]
fn a_remote_without_a_host_is_refused() {
    let err = build(&endpoint("127.0.0.1:10000", ":80")).unwrap_err();
    assert_eq!(err.message(), "invalid `remote` = `:80`: missing host part");
    // the port is looked at first
    let err = build(&endpoint("127.0.0.1:10000", ":")).unwrap_err();
    assert_eq!(err.reason, "invalid port: cannot parse integer from empty string");
}

#[test]
fn the_port_stands_behind_the_last_colon() {
    let info = build(&endpoint("127.0.0.1:10000", "a:b:80")).unwrap();
    assert!(info.endpoint.raddr.same(&RemoteAddr::DomainName("a:b".to_string(), 80)));
}

#[test]
fn sending_through_an_address_or_an_ip() {
    let mut ep = plain_endpoint();
    ep.through = Some(String::from("[::1]"));
    assert_eq!(strip_brackets("[::1]"), "::1");

    let mut x = lookups(&ep);
    x.through_ip = Ok(IpAddr::V6(1));
    let info = ep.build(&x).unwrap();
    assert_eq!(info.endpoint.conn_opts.bind_address, Some(SocketAddr::new(IpAddr::V6(1), 0)));

    x.through = Some(SocketAddr::v4(10, 0, 0, 1, 7));
    let info = ep.build(&x).unwrap();
    assert_eq!(info.endpoint.conn_opts.bind_address, Some(SocketAddr::v4(10, 0, 0, 1, 7)));

    let err = build(&ep).unwrap_err();
    assert_eq!(
        err.message(),
        "invalid `through` = `[::1]`: neither an address nor an ip: invalid IP address syntax"
    );
}

#[test]
fn the_first_refused_field_is_reported() {
    let mut ep = endpoint("nowhere", "no-port");
    ep.extra_remotes = vec![String::from("no-port-either")];
    ep.balance = Some(String::from("nonsense"));
    ep.listen_transport = Some(String::from("ws"));
    assert_eq!(build(&ep).unwrap_err().field, "listen");
    ep.listen = String::from("127.0.0.1:1");
    assert_eq!(build(&ep).unwrap_err().field, "remote");
    ep.remote = String::from("a:1");
    assert_eq!(build(&ep).unwrap_err().field, "extra_remotes");
    ep.extra_remotes.clear();
    ep.through = Some(String::from("x"));
    assert_eq!(build(&ep).unwrap_err().field, "through");
    ep.through = None;
    assert_eq!(build(&ep).unwrap_err().field, "balance");
    ep.balance = None;
    assert_eq!(build(&ep).unwrap_err().field, "listen_transport");
}

// ------------------------------------------------------------------ material --

fn no_material() -> Material {
    Material { cert: None, key: None, ca: None }
}

fn refreshed(mut ep: EndpointConf, read: Material) -> EndpointConf {
    ep.refresh(&read);
    ep
}

/// A client endpoint whose trust anchor at `path` holds `ca`.
fn client_endpoint(path: &str, ca: Option<&[u8]>) -> EndpointConf {
    let mut ep = plain_endpoint();
    ep.remote_transport = Some(format!("tls;sni=example.com;ca={}", path));
    refreshed(ep, Material { cert: None, key: None, ca: ca.map(|x| x.to_vec()) })
}

/// A server endpoint presenting `cert` and `key`.
fn server_endpoint(cert: &[u8], key: &[u8]) -> EndpointConf {
    let mut ep = plain_endpoint();
    ep.listen_transport = Some(String::from("tls;cert=/m/cert.pem;key=/m/key.pem"));
    refreshed(ep, Material { cert: Some(cert.to_vec()), key: Some(key.to_vec()), ca: None })
}

#[test]
fn an_endpoint_naming_no_material_never_forces_a_rebuild() {
    let submitted = plain_endpoint();

    let refreshed_once = refreshed(submitted.clone(), no_material());
    assert!(
        submitted.same(&refreshed_once),
        "an endpoint that names no certificate material must not change under refresh"
    );

    let again = refreshed(refreshed_once.clone(), no_material());
    assert!(refreshed_once.same(&again), "the digest must be stable across refreshes");
}

#[test]
fn the_digest_is_not_part_of_the_configuration_document() {
    let plain = client_endpoint("/m/ca.pem", Some(b"anchor\n"));
    let mut bare = plain.clone();
    bare.material_digest = None;
    assert!(plain.serializes_alike(&bare));
    assert!(!plain.same(&bare));
}

#[test]
fn replacing_the_ca_bytes_changes_the_desired_state() {
    let before = client_endpoint(
        "/m/ca.pem",
        Some(b"-----BEGIN CERTIFICATE-----\nbefore\n-----END CERTIFICATE-----\n"),
    );
    let after = client_endpoint(
        "/m/ca.pem",
        Some(b"-----BEGIN CERTIFICATE-----\nafter\n-----END CERTIFICATE-----\n"),
    );
    assert!(
        !before.same(&after),
        "a trust anchor replaced in place must change the endpoint's desired state"
    );
}

#[test]
fn replacing_the_cert_bytes_changes_the_desired_state() {
    let before = server_endpoint(b"leaf before\n", b"key\n");
    let after = server_endpoint(b"leaf after\n", b"key\n");
    assert!(
        !before.same(&after),
        "a leaf certificate replaced in place must change the endpoint's desired state"
    );
}

#[test]
fn replacing_the_key_bytes_changes_the_desired_state() {
    let before = server_endpoint(b"leaf\n", b"key before\n");
    let after = server_endpoint(b"leaf\n", b"key after\n");
    assert!(
        !before.same(&after),
        "a private key replaced in place must change the endpoint's desired state"
    );
}

#[test]
fn untouched_material_leaves_the_desired_state_alone() {
    assert!(
        client_endpoint("/m/ca.pem", Some(b"anchor\n")).same(&client_endpoint("/m/ca.pem", Some(b"anchor\n"))),
        "material nobody touched must not churn a running endpoint"
    );
    assert!(
        server_endpoint(b"leaf\n", b"key\n").same(&server_endpoint(b"leaf\n", b"key\n")),
        "material nobody touched must not churn a running endpoint"
    );
}

#[test]
fn material_that_disappears_changes_the_desired_state() {
    let before = client_endpoint("/m/ca.pem", Some(b"anchor\n"));
    let after = client_endpoint("/m/ca.pem", None);
    assert!(
        !before.same(&after),
        "a trust anchor that disappeared must change the endpoint's desired state"
    );
}

#[test]
fn material_the_constructor_never_reads_is_not_digested() {
    // `cert` and `key` are looked at only when the string carries `tls`, so here
    // nothing is loaded.
    let conf = || {
        let mut ep = plain_endpoint();
        ep.listen_transport = Some(String::from("ws;host=example.com;path=/x;cert=/m/cert.pem"));
        ep
    };
    let read = |bytes: &[u8]| Material { cert: Some(bytes.to_vec()), key: None, ca: None };

    let before = refreshed(conf(), read(b"leaf before\n"));
    let after = refreshed(conf(), read(b"leaf after\n"));
    assert!(before.same(&after), "material no transport loads must not change the desired state");
    assert!(conf().material_paths().cert.is_none());
}

#[test]
fn the_same_bytes_at_a_different_path_change_the_desired_state() {
    let mut here = client_endpoint("/m/here.pem", Some(b"anchor\n"));
    let there = client_endpoint("/m/there.pem", Some(b"anchor\n"));
    assert!(!here.same(&there), "the path is part of the material's identity");
    assert!(here.material_digest != there.material_digest);
    here.remote_transport = there.remote_transport.clone();
    assert!(!here.same(&there), "and so it is of the digest");
}

#[test]
fn a_refreshed_digest_does_not_travel_through_serde() {
    let first = client_endpoint("/m/ca.pem", Some(b"anchor\n"));
    // what a document shows of it
    let mut restored = first.clone();
    restored.material_digest = None;

    let submitted = refreshed(
        restored.clone(),
        Material { cert: None, key: None, ca: Some(b"anchor\n".to_vec()) },
    );
    assert!(first.same(&submitted), "a restored document must reach the same digest once refreshed");
    assert!(!first.same(&restored), "the digest must not survive a round trip");
}

#[test]
fn material_beyond_the_read_cap_is_treated_as_unreadable() {
    let readable = client_endpoint("/m/ca.pem", Some(b"anchor\n"));
    let first = client_endpoint("/m/ca.pem", Some("a".repeat(4 * 1024 * 1024 + 1).as_bytes()));
    let second = client_endpoint("/m/ca.pem", Some("b".repeat(4 * 1024 * 1024 + 2).as_bytes()));

    assert!(!readable.same(&first), "material that went over the cap is a change");
    assert!(
        first.same(&second),
        "a path past the read cap must digest as unreadable, not as its contents"
    );
    assert!(first.same(&client_endpoint("/m/ca.pem", None)));

    // a file that sits exactly on the cap is read, one byte more is not
    let exact = client_endpoint("/m/ca.pem", Some("a".repeat(1024 * 1024).as_bytes()));
    let over = client_endpoint("/m/ca.pem", Some("a".repeat(1024 * 1024 + 1).as_bytes()));
    assert!(!exact.same(&first));
    assert!(over.same(&first));
}

#[test]
fn absent_unreadable_and_empty_are_told_apart() {
    let unreadable = client_endpoint("/m/ca.pem", None);
    let empty = client_endpoint("/m/ca.pem", Some(b""));
    assert!(plain_endpoint().material_digest.is_none());
    assert!(unreadable.material_digest.is_some());
    assert!(empty.material_digest.is_some());
    assert!(unreadable.material_digest != empty.material_digest);
}

#[test]
fn the_files_a_rule_depends_on() {
    let mut ep = plain_endpoint();
    ep.listen_transport = Some(String::from("tls;cert=/m/cert.pem;key=/m/key.pem"));
    ep.remote_transport = Some(String::from("tls;sni=example.com;ca=/m/ca.pem"));
    let paths = ep.material_paths();
    assert_eq!(paths.cert.as_deref(), Some("/m/cert.pem"));
    assert_eq!(paths.key.as_deref(), Some("/m/key.pem"));
    assert_eq!(paths.ca.as_deref(), Some("/m/ca.pem"));
}

// --------------------------------------------------------------------- trust --

#[test]
fn a_trust_anchor_that_is_not_there_fails_the_endpoint() {
    let mut ep = plain_endpoint();
    ep.remote_transport = Some(String::from("tls;sni=example.com;ca=/m/nowhere.pem"));
    let mut x = lookups(&ep);
    x.trust = Some(String::from("No such file or directory (os error 2)"));

    let err = ep
        .build(&x)
        .expect_err("a trust anchor that cannot be read must fail the endpoint, not fall back to the public roots");
    let msg = err.message();
    assert!(msg.contains("remote_transport"), "the error must name the field: {}", msg);
    assert!(
        msg.contains("/m/nowhere.pem"),
        "the error must name the material it could not load: {}",
        msg
    );
}

#[test]
fn a_trust_anchor_together_with_insecure_fails_the_endpoint() {
    // pinning to a private root and disabling verification are opposite
    // instructions; honouring either one silently is a downgrade.
    let mut ep = plain_endpoint();
    ep.remote_transport = Some(String::from("tls;sni=example.com;ca=/does/not/matter.pem;insecure"));
    let err = build(&ep).expect_err("`ca` together with `insecure` must be rejected");
    let msg = err.message();
    assert!(msg.contains("remote_transport"), "the error must name the field: {}", msg);
    assert!(
        msg.contains("insecure"),
        "the error must say which two options conflict: {}",
        msg
    );
}

#[test]
fn a_usable_trust_anchor_builds() {
    let mut ep = plain_endpoint();
    ep.remote_transport = Some(String::from("tls;sni=example.com;ca=/m/ca.pem"));
    build(&ep).expect("a readable trust anchor must build");
}

/// Options that read well do not make a transport that can be set up.
#[test]
fn a_transport_that_cannot_be_set_up_fails_the_endpoint() {
    let mut ep = plain_endpoint();
    ep.listen_transport = Some(String::from("tls;cert=/m/cert.pem;key=/m/key.pem"));
    let mut x = lookups(&ep);
    x.acceptor = Some(String::from("failed to read certificate"));
    assert_eq!(
        ep.build(&x).expect_err("a certificate that cannot be loaded must fail the endpoint").message(),
        "invalid `listen_transport` = `tls;cert=/m/cert.pem;key=/m/key.pem`: failed to read certificate"
    );

    let mut ep = plain_endpoint();
    ep.remote_transport = Some(String::from("tls;sni=not a name"));
    let mut x = lookups(&ep);
    x.connector = Some(String::from("invalid DNS name"));
    assert_eq!(
        ep.build(&x).expect_err("a name that is none must fail the endpoint").message(),
        "invalid `remote_transport` = `tls;sni=not a name`: invalid DNS name"
    );

    // a side nobody asked for is not set up
    let ep = plain_endpoint();
    let mut x = lookups(&ep);
    x.acceptor = Some(String::from("failed to read certificate"));
    x.connector = Some(String::from("invalid DNS name"));
    assert!(ep.build(&x).unwrap().endpoint.conn_opts.transport.is_none());
}

// -------------------------------------------------------- options and policy --

#[test]
fn normalizing_fills_in_and_is_idempotent() {
    let mut global = NetConf::default();
    global.use_udp = Some(true);
    global.tcp_timeout = Some(7);
    let mut ep = plain_endpoint();
    ep.network.tcp_timeout = Some(3);

    let once = ep.normalized(&global);
    assert_eq!(once.network.use_udp, Some(true));
    assert_eq!(once.network.tcp_timeout, Some(3));
    assert!(once.same(&once.normalized(&global)));

    let info = build(&once).unwrap();
    assert!(info.use_udp);
    assert_eq!(info.endpoint.conn_opts.dial.connect_timeout, 3);
}

#[test]
fn drain_deadlines_are_overridden_one_at_a_time() {
    let mut ep = plain_endpoint();
    assert!(ep.drain_policy().is_none());

    ep.update_drain_timeout = Some(0);
    assert_eq!(
        ep.drain_policy(),
        Some(DrainPolicy { on_update: Some(Duration::from_secs(0)), on_delete: Some(Duration::from_secs(30)) })
    );

    ep.update_drain_timeout = None;
    ep.delete_drain_timeout = Some(5);
    assert_eq!(
        ep.drain_policy(),
        Some(DrainPolicy { on_update: None, on_delete: Some(Duration::from_secs(5)) })
    );
}

#[test]
fn a_built_spec_carries_its_protocols_deadlines_and_material() {
    let mut ep = client_endpoint("/m/ca.pem", Some(b"anchor\n"));
    ep.network.no_tcp = Some(true);
    ep.network.use_udp = Some(true);
    ep.delete_drain_timeout = Some(1);
    let spec = ep.build_spec(&lookups(&ep)).unwrap();
    assert!(!spec.tcp);
    assert!(spec.udp);
    assert_eq!(spec.material, ep.material_digest);
    assert_eq!(spec.drain, ep.drain_policy());

    ep.listen = String::from("nowhere");
    assert_eq!(
        ep.build_spec(&lookups(&ep)).unwrap_err(),
        "invalid `listen` = `nowhere`: cannot be resolved: invalid socket address"
    );
}

#[test]
fn the_balancers_choice_selects_a_remote() {
    let mut ep = plain_endpoint();
    ep.extra_remotes = vec![String::from("a:1"), String::from("b:2")];
    let e = build(&ep).unwrap().endpoint;
    assert!(e.select_remote(None).unwrap().same(&e.raddr));
    assert!(e.select_remote(Some(0)).unwrap().same(&e.raddr));
    assert!(e.select_remote(Some(1)).unwrap().same(&RemoteAddr::DomainName("a".to_string(), 1)));
    assert!(e.select_remote(Some(2)).unwrap().same(&RemoteAddr::DomainName("b".to_string(), 2)));
    assert_eq!(e.select_remote(Some(3)).unwrap_err(), "balancer selected an unknown remote");
}
