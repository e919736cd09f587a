use resolvd::addr::IpAddr;
use resolvd::config::{load, Config, RegValue, ValueType, Values};
use resolvd::dns::Name;
use resolvd::engine::Level;
use resolvd::rejects::{rejects, Place};
use resolvd::snapshot::{kernel_hostname, to_scope, DnsScope};

fn n(s: &str) -> Name {
    Name::parse(s).unwrap()
}

fn ip(s: &str) -> IpAddr {
    IpAddr::parse(s).unwrap()
}

fn value(ty: ValueType, data: &[u8]) -> RegValue {
    RegValue { ty, data: data.to_vec() }
}

fn nothing() -> Values {
    Values { fallback_servers: None, extra_search_domains: None, control_security: None, hosts: vec![] }
}

#[test]
fn nothing_is_configured_by_default() {
    let c = load(&nothing());
    assert!(c.same(&Config::default()));
    assert!(c.servers.is_empty() && c.search.is_empty() && c.hosts.is_empty() && c.control_security.is_none());
}

#[test]
fn lists_and_single_strings_are_read() {
    let mut v = nothing();
    v.fallback_servers = Some(value(ValueType::MultiSz, b"9.9.9.9\0 2620:fe::fe\t\0nonsense\0\0\xff\0"));
    v.extra_search_domains = Some(value(ValueType::Sz, b"corp.example\0rest"));
    let c = load(&v);
    assert_eq!(c.servers, vec![ip("9.9.9.9"), ip("2620:fe::fe")]);
    assert_eq!(c.search, vec![n("corp.example")]);
    v.extra_search_domains = Some(value(ValueType::ExpandSz, b"."));
    assert!(load(&v).search.is_empty());
    v.extra_search_domains = Some(value(ValueType::Binary, b"corp.example"));
    assert!(load(&v).search.is_empty());
}

#[test]
fn white_space_of_any_script_is_trimmed() {
    let mut v = nothing();
    v.fallback_servers = Some(value(ValueType::Sz, "\u{3000}\u{85} 1.2.3.4\u{2003}\n".as_bytes()));
    assert_eq!(load(&v).servers, vec![ip("1.2.3.4")]);
    v.fallback_servers = Some(value(ValueType::Sz, "\u{200b}1.2.3.4".as_bytes()));
    assert!(load(&v).servers.is_empty());
}

#[test]
fn a_descriptor_is_binary_and_not_empty() {
    let mut v = nothing();
    v.control_security = Some(value(ValueType::Binary, &[1, 2]));
    assert_eq!(load(&v).control_security, Some(vec![1, 2]));
    v.control_security = Some(value(ValueType::Binary, &[]));
    assert_eq!(load(&v).control_security, None);
    v.control_security = Some(value(ValueType::Sz, &[1]));
    assert_eq!(load(&v).control_security, None);
}

#[test]
fn hosts_have_a_name_and_an_address_and_come_once() {
    let mut v = nothing();
    v.hosts = vec![
        (b"printer".to_vec(), value(ValueType::Sz, b"10.0.2.9")),
        (b"nowhere".to_vec(), value(ValueType::Sz, b"somewhere")),
        (b".".to_vec(), value(ValueType::Sz, b"10.0.2.8")),
        (b"a..b".to_vec(), value(ValueType::Sz, b"10.0.2.8")),
        (b"\xff".to_vec(), value(ValueType::Sz, b"10.0.2.8")),
        (b"PRINTER".to_vec(), value(ValueType::MultiSz, b"10.0.2.7\0::1\0")),
    ];
    let c = load(&v);
    assert_eq!(c.hosts.len(), 1);
    assert_eq!(c.hosts[0].0.to_text(), "printer");
    assert_eq!(c.hosts[0].1, vec![ip("10.0.2.7"), ip("::1")]);
}

#[test]
fn configurations_are_the_same_in_any_case_and_order_of_hosts() {
    let a = Config {
        servers: vec![ip("9.9.9.9")],
        search: vec![n("a.example")],
        hosts: vec![(n("x"), vec![ip("::1")]), (n("y"), vec![ip("::2")])],
        control_security: Some(vec![1]),
    };
    let b = |search: &str, second: &str, security: u8| Config {
        servers: vec![ip("9.9.9.9")],
        search: vec![n(search)],
        hosts: vec![(n("Y"), vec![ip(second)]), (n("X"), vec![ip("::1")])],
        control_security: Some(vec![security]),
    };
    assert!(a.same(&b("A.EXAMPLE", "::2", 1)));
    assert!(!a.same(&b("b.example", "::2", 1)));
    assert!(!a.same(&b("a.example", "::3", 1)));
    assert!(!a.same(&b("a.example", "::2", 2)));
    assert!(!a.same(&Config::default()));
}

#[test]
fn what_an_interface_says_is_read_and_the_rest_left_out() {
    let s = to_scope(&DnsScope {
        ifid: "if1".into(),
        name: "eth0".into(),
        servers: vec!["10.0.2.3".into(), " 10.0.2.4".into(), "::1".into()],
        domains: vec!["lan".into(), ".".into(), "a..b".into()],
        addresses: vec!["10.0.2.15/24".into(), "fe80::1/+64".into(), "10.0.2.16".into(), "10.0.2.17/256".into(), "x/8".into(), "10.0.2.18/8/8".into()],
        default_route: true,
        exclusive: false,
        metric: 7,
        level: Level::Routed,
    });
    assert_eq!((s.id.as_str(), s.interface.as_str(), s.metric), ("if1", "eth0", 7));
    assert_eq!(s.servers, vec![ip("10.0.2.3"), ip("::1")]);
    assert_eq!(s.domains, vec![n("lan")]);
    assert_eq!(s.addresses, vec![(ip("10.0.2.15"), 24), (ip("fe80::1"), 64)]);
    assert!(s.default_route && !s.exclusive && s.level == Level::Routed);
}

#[test]
fn the_kernels_name_ends_at_a_zero() {
    assert_eq!(kernel_hostname(b"box\0\0junk"), Some("box".into()));
    assert_eq!(kernel_hostname(b"box"), Some("box".into()));
    assert_eq!(kernel_hostname(b"(none)\0"), None);
    assert_eq!(kernel_hostname(b"\0"), None);
    assert_eq!(kernel_hostname(&[b'a', 0xff]), Some("a\u{fffd}".into()));
}

#[test]
fn what_is_malformed_is_told() {
    let mut v = nothing();
    assert!(rejects(&v).is_empty());
    v.fallback_servers = Some(value(ValueType::MultiSz, b"1.2.3.4\0 nowhere\0"));
    v.extra_search_domains = Some(value(ValueType::MultiSz, b"lan\0a..b\0.\0"));
    v.hosts = vec![
        (b"x..y".to_vec(), value(ValueType::Sz, b"1.2.3.4")),
        (b"h.example".to_vec(), value(ValueType::MultiSz, b"1.2.3.4\0one\0")),
        (b".".to_vec(), value(ValueType::Sz, b"two")),
        (vec![0xff], value(ValueType::Sz, b"three")),
    ];
    let told: Vec<(Place, String)> = rejects(&v);
    assert_eq!(
        told,
        [
            (Place::Server, " nowhere".to_string()),
            (Place::Domain, "a..b".to_string()),
            (Place::Domain, ".".to_string()),
            (Place::HostName, "x..y".to_string()),
            (Place::HostAddress, "one".to_string()),
        ]
    );
}
