//! Cohorts, the resolver, process settings, accept loops, the command line and
//! the texts of addresses.

use realm::accept::{relay_step, AcceptStep, Accepted, Backoff};
use realm::cmd::{choose_input, plan_nofile, plan_pipe, CmdInput, ControlOpts, NofilePlan, PipePlan, RuleArgs};
use realm::control::socket::{plan_bind, plan_directory, DirectoryPlan, Leftover, HEADER_READ_TIMEOUT, OWNER_ONLY};
use realm::control::status::process_status;
use realm::dns;
use realm::dns::{Dns, DnsConf};
use realm::endpoint::RemoteAddr;
use realm::idmap::IdMap;
use realm::lifecycle::cohort::{Cohort, DrainOutcome, DrainWait};
use realm::lifecycle::reconcile::derive_id;
use realm::lifecycle::types::{DrainPolicy, Proto, SlotAction, SlotOutcome};
use realm::net::{IpAddr, SocketAddr};
use realm::process;
use realm::process::ProcessSettings;
use realm::text;
use realm::time::Duration;

fn ms(n: u64) -> Duration {
    Duration::from_millis(n)
}

// ------------------------------------------------------------------ cohorts --

#[test]
fn cancelling_a_cohort_terminates_connections_and_zeroes_the_count() {
    let mut cohort = Cohort::new(ms(0));
    for _ in 0..4 {
        cohort.register();
    }
    assert_eq!(cohort.count(), 4);

    cohort.cancel(ms(10));
    assert!(cohort.is_cancelled());
    // only what has really ended counts
    assert_eq!(cohort.drained(None), DrainWait::Empty);
    for _ in 0..4 {
        cohort.release();
    }
    assert_eq!(cohort.drained(None), DrainWait::Over(DrainOutcome::Finished));
    assert_eq!(cohort.count(), 0, "no connection is left behind");
}

#[test]
fn drain_with_deadline_forces_remaining_connections() {
    let mut cohort = Cohort::new(ms(0));
    cohort.register();

    assert_eq!(cohort.drain(Some(ms(200)), ms(100)), DrainWait::AtMost(ms(200)));
    assert!(!cohort.is_cancelled());
    cohort.expire(ms(300));
    assert!(cohort.is_cancelled());
    assert_eq!(cohort.drained(Some(ms(200))), DrainWait::Empty);
    cohort.release();
    assert_eq!(cohort.drained(Some(ms(200))), DrainWait::Over(DrainOutcome::Forced(1)));
    assert_eq!(cohort.count(), 0);

    // draining an already empty cohort finishes immediately
    let mut empty = Cohort::new(ms(0));
    assert_eq!(empty.drain(Some(ms(50)), ms(10)), DrainWait::Over(DrainOutcome::Finished));
}

#[test]
fn a_drain_without_a_deadline_waits_for_as_long_as_it_takes() {
    let mut cohort = Cohort::new(ms(1_000));
    cohort.register();
    assert_eq!(cohort.age(ms(3_500)), ms(2_500));
    assert_eq!(cohort.draining_for(ms(3_500)), None);
    assert_eq!(cohort.drain(None, ms(4_000)), DrainWait::Empty);
    // a drain that has begun keeps its beginning
    cohort.start_draining(ms(9_000));
    assert_eq!(cohort.draining_for(ms(4_250)), Some(ms(250)));
    cohort.release();
    assert_eq!(cohort.drained(None), DrainWait::Over(DrainOutcome::Finished));
    // a clock that runs backwards gives no time at all
    assert_eq!(cohort.age(ms(0)), ms(0));
}

// ----------------------------------------------------------------- resolver --

fn servers(x: u32) -> DnsConf<u32, &'static str> {
    DnsConf { conf: x, opts: "default" }
}

#[test]
fn configure_once_then_reject_reconfiguration() {
    let mut d: Dns<u32, &'static str> = Dns::new();
    assert!(dns::effective_conf(&d).is_none());

    assert_eq!(dns::build(&mut d, Some(8), None, servers(1)), Ok(true));
    let conf = dns::effective_conf(&d).unwrap();
    assert_eq!((conf.conf, conf.opts), (8, "default"));

    assert_eq!(
        dns::build_lazy(&mut d, Some(9), Some("other"), servers(2)),
        Err(String::from("dns resolver is already configured"))
    );
    assert_eq!(
        dns::build(&mut d, None, None, servers(3)),
        Err(String::from("dns resolver is already configured"))
    );
    assert_eq!(dns::effective_conf(&d).unwrap().conf, 8);
}

#[test]
fn default_resolver_is_used_and_then_frozen() {
    let mut d: Dns<u32, &'static str> = Dns::new();
    assert_eq!(d.available(), Err(String::from("dns resolver is unavailable")));
    assert!(d.force_init(servers(1)), "the resolver is to be built");
    d.set_built(true);
    assert_eq!(d.available(), Ok(()));
    assert!(!d.force_init(servers(2)));
    assert_eq!(dns::effective_conf(&d).unwrap().conf, 1);

    assert!(dns::build_lazy(&mut d, Some(9), None, servers(3)).is_err());
    assert_eq!(dns::effective_conf(&d).unwrap().conf, 1);

    // only the first attempt to build counts
    d.set_built(false);
    assert_eq!(d.available(), Ok(()));
}

#[test]
fn an_override_replaces_its_part_only() {
    let mut d: Dns<u32, &'static str> = Dns::new();
    assert_eq!(dns::build_lazy(&mut d, None, Some("mine"), servers(1)), Ok(()));
    let conf = dns::effective_conf(&d).unwrap();
    assert_eq!((conf.conf, conf.opts), (1, "mine"));
    d.force_init(servers(5));
    d.set_built(false);
    assert_eq!(d.available(), Err(String::from("dns resolver is unavailable")));
}

#[test]
fn a_remote_resolves_to_itself_or_to_its_ips() {
    let fixed = RemoteAddr::SocketAddr(SocketAddr::v4(10, 0, 0, 7, 443));
    assert_eq!(dns::name_to_resolve(&fixed), None);
    assert_eq!(dns::resolve_addr(&fixed, &Vec::new()), vec![SocketAddr::v4(10, 0, 0, 7, 443)]);

    let named = RemoteAddr::DomainName(String::from("example.com"), 80);
    assert_eq!(dns::name_to_resolve(&named), Some("example.com"));
    let ips = vec![IpAddr::V4(0x0a000001), IpAddr::V6(1)];
    assert_eq!(
        dns::resolve_addr(&named, &ips),
        vec![SocketAddr::v4(10, 0, 0, 1, 80), SocketAddr::new(IpAddr::V6(1), 80)]
    );
}

// ------------------------------------------------------------------ process --

#[test]
fn settings_are_built_up_and_reported() {
    let mut s = ProcessSettings::empty();
    process::amend(&mut s, |s| ProcessSettings { nofile: Some((1024, 524288)), ..s });
    process::amend(&mut s, |s| ProcessSettings {
        log_level: Some(String::from("info")),
        log_output: Some(String::from("stdout")),
        ..s
    });
    process::amend(&mut s, |s| ProcessSettings { pipe_page: Some(16), ..s });
    process::amend(&mut s, |s| ProcessSettings { nofile: Some((524288, 524288)), ..s });

    let e = process::effective(&s);
    assert_eq!(e.nofile, Some((524288, 524288)));
    assert_eq!(e.log_level.as_deref(), Some("info"));
    assert_eq!(e.pre_conn_hook, None);

    let nameservers = Some(vec![IpAddr::V4(0x0a000035), IpAddr::V6(0x2001_0db8_0000_0000_0000_0000_0000_0001)]);
    let r = process_status("2.9.0", "[control]", &nameservers, &e);
    assert_eq!(r.version, "2.9.0");
    assert_eq!(r.features, "[control]");
    assert_eq!(r.nameservers, Some(vec![String::from("10.0.0.53"), String::from("2001:db8::1")]));
    assert_eq!(r.log_output.as_deref(), Some("stdout"));
    assert_eq!((r.nofile_soft, r.nofile_hard), (Some(524288), Some(524288)));
    assert_eq!(r.pipe_page, Some(16));

    process::amend(&mut s, |s| ProcessSettings { pre_conn_hook: Some(String::from("/lib/hook.so")), ..s });
    assert_eq!(process::effective(&s).pre_conn_hook.as_deref(), Some("/lib/hook.so"));
    assert!(process_status("v", "f", &None, &ProcessSettings::default()).nofile_soft.is_none());
}

// ------------------------------------------------------------- accept loops --

#[test]
fn a_relay_listener_ends_with_an_error_and_passes_over_an_abort() {
    assert_eq!(relay_step(Accepted::Connection), AcceptStep::Serve);
    assert_eq!(relay_step(Accepted::Aborted), AcceptStep::Retry);
    assert_eq!(relay_step(Accepted::Failed), AcceptStep::Stop);
    assert_eq!(relay_step(Accepted::Shutdown), AcceptStep::Stop);
}

#[test]
fn the_control_plane_backs_off_up_to_a_cap() {
    let mut b = Backoff::new();
    let mut pauses = Vec::new();
    for _ in 0..9 {
        match b.step(Accepted::Failed) {
            AcceptStep::RetryAfter(d) => pauses.push(d),
            other => panic!("expected a pause, got {:?}", other),
        }
    }
    let expected: Vec<Duration> = [5, 10, 20, 40, 80, 160, 320, 500, 500].iter().map(|n| ms(*n)).collect();
    assert_eq!(pauses, expected);
    assert_eq!(b.step(Accepted::Aborted), AcceptStep::Retry);
    assert_eq!(b.step(Accepted::Connection), AcceptStep::Serve);
    assert_eq!(b.step(Accepted::Failed), AcceptStep::RetryAfter(ms(5)));
    assert_eq!(b.step(Accepted::Shutdown), AcceptStep::Stop);
}

// ----------------------------------------------------------- control socket --

#[test]
fn an_existing_directory_keeps_its_permissions() {
    assert_eq!(plan_directory(None), DirectoryPlan::Create);
    assert_eq!(plan_directory(Some(0o40700)), DirectoryPlan::Keep);
    assert_eq!(plan_directory(Some(0o40755)), DirectoryPlan::KeepAndWarn(0o755));
    assert_eq!(plan_directory(Some(0o41777)), DirectoryPlan::KeepAndWarn(0o777));
}

#[test]
fn the_socket_is_owner_only() {
    assert_eq!(OWNER_ONLY, 0o700);
    assert_eq!(HEADER_READ_TIMEOUT, 5);
}

#[test]
fn a_stale_socket_is_replaced_and_a_live_one_is_not() {
    assert_eq!(plan_bind("/run/realm.sock", Leftover::Nothing), Ok(false));
    assert_eq!(plan_bind("/run/realm.sock", Leftover::Dead), Ok(true));
    let err = plan_bind("/run/realm.sock", Leftover::Alive).expect_err("a live socket must not be stolen");
    assert!(err.contains("already"), "{}", err);
    assert_eq!(err, "another process is already serving the control socket at \"/run/realm.sock\"");
}

// ------------------------------------------------------------- command line --

fn opts(socket: Option<&str>, state_file: Option<&str>) -> ControlOpts {
    ControlOpts { socket: socket.map(String::from), state_file: state_file.map(String::from) }
}

#[test]
fn the_state_file_is_next_to_the_socket_unless_given() {
    assert_eq!(opts(Some("/run/realm/realm.sock"), None).state_file().as_deref(), Some("/run/realm/realm-state.json"));
    assert_eq!(opts(Some("realm.sock"), None).state_file().as_deref(), Some("realm-state.json"));
    assert_eq!(opts(Some("/run//realm.sock"), None).state_file().as_deref(), Some("/run/realm-state.json"));
    assert_eq!(opts(Some("/"), None).state_file(), None);
    assert_eq!(opts(None, None).state_file(), None);
    assert_eq!(opts(None, Some("/s.json")).state_file().as_deref(), Some("/s.json"));
    assert_eq!(opts(Some("/run/realm.sock"), Some("/s.json")).state_file().as_deref(), Some("/s.json"));

    // without a control plane no state is kept
    assert_eq!(opts(None, Some("/s.json")).snapshot_path(), None);
    assert_eq!(opts(Some("/a/b"), None).snapshot_path().as_deref(), Some("/a/realm-state.json"));
    assert_eq!(ControlOpts::default().snapshot_path(), None);
    assert_eq!(opts(Some("/a/b"), None).clone().socket.as_deref(), Some("/a/b"));
}

fn args(local: Option<&str>, remote: Option<&str>) -> RuleArgs {
    RuleArgs {
        local: local.map(String::from),
        remote: remote.map(String::from),
        through: Some(String::from("10.0.0.1")),
        interface: None,
        listen_interface: None,
        listen_transport: None,
        remote_transport: None,
    }
}

#[test]
fn a_configuration_file_comes_before_a_single_rule() {
    let both = args(Some("0.0.0.0:5000"), Some("a.com:1"));
    match choose_input(Some(String::from("realm.toml")), both, 7u8, ControlOpts::default()) {
        CmdInput::Config(path, o, _) => assert_eq!((path.as_str(), o), ("realm.toml", 7)),
        other => panic!("expected a configuration file, got {:?}", other),
    }
    let both = args(Some("0.0.0.0:5000"), Some("a.com:1"));
    match choose_input(None, both, 7u8, opts(Some("/s"), None)) {
        CmdInput::Endpoint(c, _, control) => {
            assert_eq!(c.listen, "0.0.0.0:5000");
            assert_eq!(c.remote, "a.com:1");
            assert_eq!(c.through.as_deref(), Some("10.0.0.1"));
            assert_eq!(control.socket.as_deref(), Some("/s"));
        }
        other => panic!("expected a rule, got {:?}", other),
    }
    let half = args(Some("0.0.0.0:5000"), None);
    assert!(matches!(choose_input(None, half, 7u8, ControlOpts::default()), CmdInput::Nothing));
}

#[test]
fn limits_are_numbers_or_left_alone() {
    let given = |s: &str| Some(s.to_string());
    assert_eq!(plan_nofile(&None), NofilePlan::Bump);
    assert_eq!(plan_nofile(&given("1024")), NofilePlan::To(1024));
    assert_eq!(plan_nofile(&given("18446744073709551615")), NofilePlan::To(u64::MAX));
    assert_eq!(plan_nofile(&given("18446744073709551616")), NofilePlan::Invalid);
    assert_eq!(plan_nofile(&given("-1")), NofilePlan::Invalid);
    assert_eq!(plan_pipe(&None), PipePlan::Keep);
    assert_eq!(plan_pipe(&given("16")), PipePlan::To { page: 16, bytes: 65536 });
    assert_eq!(plan_pipe(&given("many")), PipePlan::Invalid);
    assert_eq!(plan_pipe(&given("18446744073709551615")), PipePlan::Invalid);
}

// -------------------------------------------------------------------- texts --

#[test]
fn derived_ids_follow_the_contract() {
    assert_eq!(derive_id(&SocketAddr::v4(0, 0, 0, 0, 5000), true, false), "tcp:0.0.0.0:5000");
    assert_eq!(derive_id(&SocketAddr::v4(0, 0, 0, 0, 5000), false, true), "udp:0.0.0.0:5000");
    assert_eq!(derive_id(&SocketAddr::new(IpAddr::V6(1), 5000), true, true), "tcpudp:[::1]:5000");
    assert_eq!(derive_id(&SocketAddr::v4(1, 2, 3, 4, 5), false, false), "tcp:1.2.3.4:5");
}

#[test]
fn addresses_read_as_usual() {
    let v6 = |n: u128| IpAddr::V6(n).render();
    assert_eq!(v6(0), "::");
    assert_eq!(v6(0x2001_0db8_0000_0000_0001_0000_0000_0001), "2001:db8::1:0:0:1");
    assert_eq!(v6(0x2001_0db8_0000_0001_0001_0001_0001_0001), "2001:db8:0:1:1:1:1:1");
    assert_eq!(v6(0xffff_c000_0201), "::ffff:192.0.2.1");
    assert_eq!(v6(0xfe80_0000_0000_0000_0000_0000_0000_0000), "fe80::");
    assert_eq!(IpAddr::V4(0xff00_0001).render(), "255.0.0.1");
    let mut scoped = SocketAddr::new(IpAddr::V6(0xfe80_0000_0000_0000_0000_0000_0000_0001), 9);
    scoped.scope_id = 3;
    assert_eq!(scoped.render(), "[fe80::1%3]:9");
}

#[test]
fn texts_are_taken_apart() {
    let v = text::chars_of("a-b-c");
    assert_eq!(text::find_char(&v, '-'), 1);
    assert_eq!(text::rfind_char(&v, '-'), Some(3));
    assert_eq!(text::rfind_char(&v, '+'), None);
    let parts: Vec<String> = text::split_chars(&v, '-').iter().map(|p| text::string_of(p)).collect();
    assert_eq!(parts, vec!["a", "b", "c"]);
    assert_eq!(text::string_of(&text::trim_chars(&text::chars_of(" \t\u{3000}x y\u{a0} "))), "x y");
    let mut s = String::from("n=");
    text::push_number(&mut s, u64::MAX, 10);
    assert_eq!(s, "n=18446744073709551615");
    let mut s = String::new();
    text::push_number(&mut s, 0xbeef, 16);
    assert_eq!(s, "beef");
}

#[test]
fn a_map_keeps_its_ids_in_order() {
    let mut m: IdMap<u8> = IdMap::new();
    for (i, id) in ["b", "a", "ab", "\u{10000}", "\u{ffff}"].iter().enumerate() {
        m.insert(id.to_string(), i as u8);
    }
    m.insert(String::from("a"), 9);
    let ids: Vec<&str> = (0..m.len()).map(|i| m.key_at(i).as_str()).collect();
    assert_eq!(ids, vec!["a", "ab", "b", "\u{ffff}", "\u{10000}"]);
    assert_eq!(m.get("a"), Some(&9));
    m.remove("a");
    assert!(!m.contains("a"));
    assert_eq!(m.len(), 4);
}

#[test]
fn outcomes_say_whether_a_retry_helps() {
    let ok = SlotOutcome::ok(Proto::Udp, SlotAction::Deleted);
    assert_eq!((ok.error, ok.retryable), (None, None));
    let failed = SlotOutcome::failed(Proto::Tcp, String::from("x"));
    assert_eq!((failed.action, failed.retryable), (SlotAction::Failed, Some(true)));
    let rejected = SlotOutcome::rejected(Proto::Tcp, String::from("x"));
    assert_eq!(rejected.retryable, Some(false));
}

#[test]
fn udp_never_outlives_an_update() {
    let p = DrainPolicy::default();
    assert_eq!(p.on_replace(Proto::Tcp), None);
    assert_eq!(p.on_replace(Proto::Udp), Some(Duration::from_secs(0)));
    assert_eq!(p.on_delete, Some(Duration::from_secs(30)));
}
