use guardian::ipdetect::{
    detect_local_ip, ip_score, is_usable_ipv4, list_adapters, source_ip_for, AdapterIp,
    InterfaceAddr, InterfaceEntry, RouteProbe,
};

fn adapter(name: &str, ip: &str) -> AdapterIp {
    AdapterIp {
        name: name.into(),
        ip: ip.into(),
        mac: None,
    }
}

fn entry(name: &str, addr: InterfaceAddr) -> InterfaceEntry {
    InterfaceEntry {
        name: name.into(),
        addr,
    }
}

fn probe(ip: &str) -> RouteProbe {
    RouteProbe::Local { ip: ip.into() }
}

#[test]
fn filters_loopback_and_link_local() {
    assert!(!is_usable_ipv4("127.0.0.1"));
    assert!(!is_usable_ipv4("169.254.1.1"));
    assert!(!is_usable_ipv4("100.64.0.1"));
    assert!(!is_usable_ipv4("100.123.202.1"));
    assert!(!is_usable_ipv4("0.0.0.0"));
    assert!(!is_usable_ipv4("not-an-ip"));
    assert!(is_usable_ipv4("10.20.30.41"));
    assert!(is_usable_ipv4("192.168.1.1"));
}

#[test]
fn edges_of_the_unusable_ranges() {
    assert!(is_usable_ipv4("100.63.0.1"));
    assert!(!is_usable_ipv4("100.127.0.1"));
    assert!(is_usable_ipv4("100.128.0.1"));
    assert!(is_usable_ipv4("169.253.0.1"));
    assert!(!is_usable_ipv4("10.0.0"));
    assert!(!is_usable_ipv4("10.0.0.0.1"));
    assert!(!is_usable_ipv4(""));
}

#[test]
fn text_that_is_no_address_is_not_usable() {
    for ip in [
        "10.0.0.256",
        "10.0.0.1.x",
        "10.x.0.0.1",
        "10.0.0.",
        "10..0.1",
        "10.0.0.+1",
        "10.0.0.-1",
        " 10.0.0.1",
        "4294967306.0.0.1",
    ] {
        assert!(!is_usable_ipv4(ip), "{ip}");
        assert_eq!(ip_score(ip), 0, "{ip}");
    }
    assert!(is_usable_ipv4("255.255.255.255"));
}

#[test]
fn score_prefers_campus_net() {
    assert!(ip_score("10.20.30.41") > ip_score("192.168.100.100"));
    assert!(ip_score("192.168.100.100") > ip_score("192.168.1.1"));
    assert!(ip_score("192.168.1.1") > ip_score("172.29.144.1"));
    assert!(ip_score("172.29.144.1") > ip_score("100.123.202.1"));
    assert_eq!(ip_score("not-an-ip"), 0);
}

#[test]
fn exact_scores() {
    assert_eq!(ip_score("10.0.0.1"), 5);
    assert_eq!(ip_score("192.168.5.1"), 3);
    assert_eq!(ip_score("192.168.1.5"), 4);
    assert_eq!(ip_score("172.16.0.1"), 2);
    assert_eq!(ip_score("172.32.0.1"), 1);
    assert_eq!(ip_score("8.8.8.8"), 1);
}

#[test]
fn source_ip_is_routable_and_usable() {
    let probes = vec![
        RouteProbe::Failed,
        probe("127.0.0.1"),
        probe("0.0.0.0"),
        probe("169.254.1.1"),
        probe("100.64.0.9"),
        probe("::1"),
        probe("fe80::1"),
        probe("10.20.30.41"),
        probe("10.20.30.42"),
    ];
    let ip = source_ip_for(&probes).unwrap();
    assert!(is_usable_ipv4(&ip));
    assert_ne!(ip, "0.0.0.0");
    assert_eq!(ip, "10.20.30.41");
}

#[test]
fn source_ip_none_for_unresolvable_host() {
    assert_eq!(source_ip_for(&Vec::new()), None);
    assert_eq!(source_ip_for(&vec![RouteProbe::Failed, RouteProbe::Failed]), None);
    assert_eq!(source_ip_for(&vec![probe("169.254.1.1")]), None);
}

#[test]
fn list_adapters_does_not_panic() {
    let adapters = list_adapters(&vec![
        entry("lo", InterfaceAddr::Inet(0x7F000001)),
        entry("eth0", InterfaceAddr::Other),
        entry("eth0", InterfaceAddr::Inet(0x0A141E29)),
    ]);
    assert_eq!(adapters.len(), 2);
    for a in &adapters {
        assert!(!a.name.is_empty(), "网卡名不应为空");
    }
}

#[test]
fn adapters_have_the_link_address_of_their_interface() {
    let bytes: [u8; 8] = [0x00, 0x1B, 0xFF, 0x0A, 0x10, 0x9C, 0, 0];
    let adapters = list_adapters(&vec![
        entry("wan", InterfaceAddr::Inet(0x0A141E29)),
        entry("wan", InterfaceAddr::Link { halen: 6, addr: bytes }),
        entry("lan", InterfaceAddr::Link { halen: 0, addr: bytes }),
        entry("lan", InterfaceAddr::Inet(0xC0A80101)),
        entry("odd", InterfaceAddr::Link { halen: 9, addr: bytes }),
        entry("odd", InterfaceAddr::Inet(0xFFFFFFFF)),
    ]);
    assert_eq!(
        adapters,
        vec![
            AdapterIp {
                name: "wan".into(),
                ip: "10.20.30.41".into(),
                mac: Some("00:1B:FF:0A:10:9C".into()),
            },
            adapter("lan", "192.168.1.1"),
            adapter("odd", "255.255.255.255"),
        ]
    );
}

#[test]
fn last_link_address_counts() {
    let adapters = list_adapters(&vec![
        entry("w", InterfaceAddr::Link { halen: 1, addr: [1, 0, 0, 0, 0, 0, 0, 0] }),
        entry("w", InterfaceAddr::Link { halen: 2, addr: [2, 3, 0, 0, 0, 0, 0, 0] }),
        entry("w", InterfaceAddr::Inet(0)),
    ]);
    assert_eq!(adapters[0].mac.as_deref(), Some("02:03"));
    assert_eq!(adapters[0].ip, "0.0.0.0");
}

#[test]
fn detect_local_ip_prefers_named_interface() {
    let adapters = vec![
        adapter("br-lan", "192.168.1.1"),
        adapter("wan", "172.16.5.5"),
        adapter("tail", "100.64.0.9"),
        adapter("eth1", "10.1.1.1"),
    ];
    let r = detect_local_ip(&adapters, Some("definitely-not-a-real-iface"));
    if let Some(ip) = r {
        assert!(is_usable_ipv4(&ip));
    }
    let r = detect_local_ip(&adapters, None);
    if let Some(ip) = r {
        assert!(is_usable_ipv4(&ip));
    }
    assert_eq!(detect_local_ip(&adapters, None).as_deref(), Some("10.1.1.1"));
    assert_eq!(detect_local_ip(&adapters, Some("wan")).as_deref(), Some("172.16.5.5"));
    assert_eq!(detect_local_ip(&adapters, Some("tail")).as_deref(), Some("10.1.1.1"));
    assert_eq!(detect_local_ip(&vec![adapter("t", "100.64.0.9")], Some("t")), None);
}

#[test]
fn last_of_the_best_addresses_is_picked() {
    let adapters = vec![adapter("a", "10.0.0.1"), adapter("b", "10.0.0.2"), adapter("c", "8.8.8.8")];
    assert_eq!(detect_local_ip(&adapters, None).as_deref(), Some("10.0.0.2"));
}

#[test]
fn listed_addresses_can_be_judged() {
    let adapters = list_adapters(&vec![
        entry("a", InterfaceAddr::Inet(0x0A000001)),
        entry("b", InterfaceAddr::Inet(0xC0A80264)),
        entry("c", InterfaceAddr::Inet(0x64400001)),
    ]);
    let scores: Vec<u8> = adapters.iter().map(|a| ip_score(&a.ip)).collect();
    assert_eq!(scores, vec![5, 4, 1]);
    assert!(!is_usable_ipv4(&adapters[2].ip));
}
