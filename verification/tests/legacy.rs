//! The legacy configuration format.

use realm::conf::error::BuildError;
use realm::conf::legacy;
use realm::conf::legacy::LegacyConf;

fn strvec(items: &[&str]) -> Vec<String> {
    items.iter().map(|x| String::from(*x)).collect()
}

#[test]
fn flatten_ports() {
    let v1 = strvec(&["1-4"]);
    let v2 = strvec(&["1-2", "3-4"]);
    let v3 = strvec(&["1-3", "4"]);
    let v4 = strvec(&["1", "2", "3", "4"]);
    let expect = Ok(vec![1, 2, 3, 4]);
    assert_eq!(legacy::flatten_ports("listening_ports", v1), expect);
    assert_eq!(legacy::flatten_ports("listening_ports", v2), expect);
    assert_eq!(legacy::flatten_ports("listening_ports", v3), expect);
    assert_eq!(legacy::flatten_ports("listening_ports", v4), expect);

    // malformed input is rejected instead of panicking
    assert!(legacy::flatten_ports("listening_ports", strvec(&["not-a-port"])).is_err());
    assert!(legacy::flatten_ports("listening_ports", strvec(&["4-1"])).is_err());
    // the upper bound does not overflow
    assert_eq!(
        legacy::flatten_ports("listening_ports", strvec(&["65534-65535"])),
        Ok(vec![65534, 65535])
    );
}

#[test]
fn join_addr_port() {
    const FIELD: &str = "listening_addresses";

    let addrs = strvec(&["a.com", "b.com", "c.com"]);
    let ports = vec![1, 2, 3];
    let result = strvec(&["a.com:1", "b.com:2", "c.com:3"]);
    assert_eq!(legacy::join_addr_port(FIELD, addrs, ports, 3), Ok(result));

    let addrs = strvec(&["a.com", "b.com", "c.com"]);
    let ports = vec![1, 2, 3];
    let result = strvec(&["a.com:1", "b.com:2"]);
    assert_eq!(legacy::join_addr_port(FIELD, addrs, ports, 2), Ok(result));

    let addrs = strvec(&["a.com", "b.com", "c.com"]);
    let ports = vec![1, 2, 3];
    let result = strvec(&["a.com:1", "b.com:2", "c.com:3", "a.com:1"]);
    assert_eq!(legacy::join_addr_port(FIELD, addrs, ports, 4), Ok(result));

    let addrs = strvec(&["a.com", "b.com", "c.com"]);
    let ports = vec![1, 2, 3, 4, 5, 6];
    let result = strvec(&["a.com:1", "b.com:2", "c.com:3", "a.com:4"]);
    assert_eq!(legacy::join_addr_port(FIELD, addrs, ports, 4), Ok(result));

    let addrs = strvec(&["a.com", "b.com", "c.com", "d.com", "e.com"]);
    let ports = vec![1, 2, 3];
    let result = strvec(&["a.com:1", "b.com:2", "c.com:3", "d.com:1"]);
    assert_eq!(legacy::join_addr_port(FIELD, addrs, ports, 4), Ok(result));

    let addrs = strvec(&["a.com", "b.com", "c.com"]);
    let ports = vec![1, 2, 3];
    let result = strvec(&["a.com:1", "b.com:2", "c.com:3", "a.com:1", "a.com:1"]);
    assert_eq!(legacy::join_addr_port(FIELD, addrs, ports, 5), Ok(result));

    // empty input is rejected instead of panicking on index 0
    assert!(legacy::join_addr_port(FIELD, Vec::new(), vec![1], 1).is_err());
    assert!(legacy::join_addr_port(FIELD, strvec(&["a.com"]), Vec::new(), 1).is_err());
}

fn message(r: Result<Vec<u16>, BuildError>) -> String {
    r.unwrap_err().message()
}

#[test]
fn ports_say_what_is_wrong_with_them() {
    assert_eq!(legacy::parse_port("listening_ports", " 80 ").unwrap(), 80);
    assert_eq!(legacy::parse_port("listening_ports", "+80").unwrap(), 80);
    assert_eq!(
        legacy::parse_port("listening_ports", "").unwrap_err().message(),
        "invalid `listening_ports` = ``: not a valid port: cannot parse integer from empty string"
    );
    assert_eq!(
        message(legacy::flatten_ports("remote_ports", strvec(&["1", "70000"]))),
        "invalid `remote_ports` = `70000`: not a valid port: number too large to fit in target type"
    );
    assert_eq!(
        message(legacy::flatten_ports("remote_ports", strvec(&["not-a-port"]))),
        "invalid `remote_ports` = `not`: not a valid port: invalid digit found in string"
    );
    assert_eq!(
        message(legacy::flatten_ports("remote_ports", strvec(&["4-1"]))),
        "invalid `remote_ports` = `4-1`: port range ends before it starts"
    );
    assert_eq!(
        message(legacy::flatten_ports("remote_ports", strvec(&["1-2-3"]))),
        "invalid `remote_ports` = `2-3`: not a valid port: invalid digit found in string"
    );
}

#[test]
fn addresses_say_what_is_missing() {
    let e = legacy::join_addr_port("remote_addresses", strvec(&["a"]), Vec::new(), 1).unwrap_err();
    assert_eq!(e.message(), "invalid `remote_addresses` = ``: no port given");
    let e = legacy::join_addr_port("remote_addresses", Vec::new(), vec![1], 1).unwrap_err();
    assert_eq!(e.message(), "invalid `remote_addresses` = ``: no address given");
}

#[test]
fn one_rule_per_listening_port() {
    let conf = LegacyConf {
        listen_addrs: strvec(&["0.0.0.0"]),
        listen_ports: strvec(&["5000-5002"]),
        remote_addrs: strvec(&["a.com", "b.com"]),
        remote_ports: strvec(&["443", "80"]),
    };
    let rules = conf.into_rules().unwrap();
    let pairs: Vec<(&str, &str)> = rules.iter().map(|r| (r.listen.as_str(), r.remote.as_str())).collect();
    assert_eq!(
        pairs,
        vec![
            ("0.0.0.0:5000", "a.com:443"),
            ("0.0.0.0:5001", "b.com:80"),
            ("0.0.0.0:5002", "a.com:443"),
        ]
    );
    assert!(rules.iter().all(|r| r.extra_remotes.is_empty() && r.balance.is_none() && r.network.is_empty()));
}

#[test]
fn a_legacy_configuration_without_listening_ports_is_refused() {
    let conf = LegacyConf {
        listen_addrs: strvec(&["0.0.0.0"]),
        listen_ports: Vec::new(),
        remote_addrs: strvec(&["a.com"]),
        remote_ports: strvec(&["443"]),
    };
    let e = conf.into_rules().unwrap_err();
    assert_eq!(e.field, "listening_addresses");
    assert_eq!(e.reason, "no port given");
}
