use h2sr::policy::{
    build_policy, eq_ignore_ascii_case, expand_geo, missing_geo_tokens, needs_geo, to_ipnets,
    GeoEntry, PolicyConfig, Route,
};
use h2sr::ips::cidr_to_prefix;
use h2sr::{Addr, Error, IpPrefix, Ips};

fn strings(v: &[&str]) -> Vec<String> {
    v.iter().map(|s| s.to_string()).collect()
}

fn example_config() -> PolicyConfig {
    PolicyConfig {
        blockdomains: strings(&["ads.example"]),
        blockips: Vec::new(),
        directdomains: None,
        proxydomains: Some(strings(&["google.com"])),
        directips: Some(strings(&["10.0.0.0/8"])),
        proxyips: None,
    }
}

const fn v4(a: u8, b: u8, c: u8, d: u8) -> u32 {
    ((a as u32) << 24) | ((b as u32) << 16) | ((c as u32) << 8) | d as u32
}

#[test]
fn blocked_host() {
    let p = build_policy(&example_config(), &Vec::new()).unwrap();
    assert_eq!(p.route_host(b"ads.example", None), Route::Block);
}

#[test]
fn proxied_host_needs_no_lookup() {
    let p = build_policy(&example_config(), &Vec::new()).unwrap();
    assert_eq!(p.route_host(b"www.google.com", None), Route::Socks5);
}

#[test]
fn unknown_host_resolved_inside_direct_range() {
    let p = build_policy(&example_config(), &Vec::new()).unwrap();
    assert_eq!(p.route_host(b"unknown.test", None), Route::Resolve);
    assert_eq!(p.route_resolved(&[Addr::V4(v4(10, 1, 2, 3))]), Some(Route::Direct));
}

#[test]
fn unknown_host_resolved_outside_direct_range() {
    let p = build_policy(&example_config(), &Vec::new()).unwrap();
    assert_eq!(p.route_host(b"unknown.test", None), Route::Resolve);
    assert_eq!(p.route_resolved(&[Addr::V4(v4(8, 8, 8, 8))]), Some(Route::Socks5));
}

#[test]
fn literal_ip_goes_by_address() {
    let p = build_policy(&example_config(), &Vec::new()).unwrap();
    assert_eq!(p.route_host(b"10.0.0.5", Some(Addr::V4(v4(10, 0, 0, 5)))), Route::Direct);
}

#[test]
fn no_address_found() {
    let p = build_policy(&example_config(), &Vec::new()).unwrap();
    assert_eq!(p.route_resolved(&[]), None);
}

#[test]
fn block_list_wins_over_rules() {
    let mut cfg = example_config();
    cfg.blockdomains = strings(&["google.com"]);
    cfg.blockips = strings(&["10.1.0.0/16"]);
    let p = build_policy(&cfg, &Vec::new()).unwrap();
    assert_eq!(p.route_host(b"www.google.com", None), Route::Block);
    assert_eq!(p.route_resolved(&[Addr::V4(v4(10, 1, 2, 3))]), Some(Route::Block));
    assert_eq!(p.route_ip(Addr::V4(v4(10, 2, 0, 1))), Route::Direct);
}

#[test]
fn proxy_ip_rule() {
    let mut cfg = example_config();
    cfg.directips = None;
    cfg.proxyips = Some(strings(&["2001:db8::/32"]));
    let p = build_policy(&cfg, &Vec::new()).unwrap();
    let inside: u128 = 0x2001_0db8_0000_0000_0000_0000_0000_0001;
    let outside: u128 = 0x2001_0db9_0000_0000_0000_0000_0000_0001;
    assert_eq!(p.route_ip(Addr::V6(inside)), Route::Socks5);
    assert_eq!(p.route_ip(Addr::V6(outside)), Route::Direct);
    assert_eq!(p.route_ip(Addr::V4(v4(10, 0, 0, 1))), Route::Direct);
}

#[test]
fn inconsistent_config() {
    let mut cfg = example_config();
    cfg.directdomains = Some(Vec::new());
    assert!(matches!(build_policy(&cfg, &Vec::new()), Err(Error::ConfigInconsistency)));
    let mut cfg = example_config();
    cfg.directips = None;
    assert!(matches!(build_policy(&cfg, &Vec::new()), Err(Error::ConfigInconsistency)));
}

#[test]
fn illegal_ip_string() {
    let mut cfg = example_config();
    cfg.blockips = strings(&["10.0.0.1"]);
    match build_policy(&cfg, &Vec::new()) {
        Err(Error::IllegalIpNet(s)) => assert_eq!(s, "10.0.0.1"),
        _ => panic!("expected an error"),
    }
}

#[test]
fn bad_host_pattern_in_config() {
    let mut cfg = example_config();
    cfg.proxydomains = Some(strings(&["goo gle.com"]));
    assert!(matches!(build_policy(&cfg, &Vec::new()), Err(Error::UnexpectedCharacter(b' '))));
}

fn geo_table() -> Vec<GeoEntry> {
    vec![
        GeoEntry {
            country_code: "CN".to_string(),
            nets: vec![IpPrefix::V4 { addr: v4(1, 0, 1, 0), len: 24 }],
        },
        GeoEntry {
            country_code: "US".to_string(),
            nets: vec![IpPrefix::V4 { addr: v4(3, 0, 0, 0), len: 8 }],
        },
        GeoEntry {
            country_code: "cn".to_string(),
            nets: vec![IpPrefix::V4 { addr: v4(1, 0, 2, 0), len: 23 }],
        },
    ]
}

#[test]
fn geo_tokens_expand() {
    let x = to_ipnets(&strings(&["geo:cn", "192.168.0.0/16", "geo:xx"]), &geo_table()).unwrap();
    assert_eq!(
        x.nets,
        vec![
            IpPrefix::V4 { addr: v4(1, 0, 1, 0), len: 24 },
            IpPrefix::V4 { addr: v4(1, 0, 2, 0), len: 23 },
            IpPrefix::V4 { addr: v4(192, 168, 0, 0), len: 16 },
        ]
    );
    assert_eq!(x.missing_geo, vec![false, false, true]);
    assert_eq!(expand_geo(b"Us", &geo_table()), vec![IpPrefix::V4 { addr: v4(3, 0, 0, 0), len: 8 }]);
    assert_eq!(missing_geo_tokens(&strings(&["geo:CN", "geo:ZZ", "1.2.3.0/24"]), &geo_table()), strings(&["geo:ZZ"]));
}

#[test]
fn geo_policy() {
    let mut cfg = example_config();
    cfg.directips = Some(strings(&["geo:CN"]));
    assert!(needs_geo(&cfg));
    assert!(!needs_geo(&example_config()));
    let p = build_policy(&cfg, &geo_table()).unwrap();
    assert_eq!(p.route_ip(Addr::V4(v4(1, 0, 1, 7))), Route::Direct);
    assert_eq!(p.route_ip(Addr::V4(v4(1, 0, 3, 255))), Route::Direct);
    assert_eq!(p.route_ip(Addr::V4(v4(3, 1, 1, 1))), Route::Socks5);
}

#[test]
fn ascii_case_compare() {
    assert!(eq_ignore_ascii_case(b"Geo-CN", b"gEO-cn"));
    assert!(!eq_ignore_ascii_case(b"cn", b"cm"));
    assert!(!eq_ignore_ascii_case(b"cn", b"cnn"));
}

#[test]
fn ip_set_matches_plain_scan() {
    let nets = vec![
        IpPrefix::V4 { addr: v4(192, 168, 0, 0), len: 24 },
        IpPrefix::V4 { addr: v4(192, 168, 1, 0), len: 24 },
        IpPrefix::V4 { addr: v4(10, 0, 0, 0), len: 8 },
        IpPrefix::V4 { addr: v4(10, 20, 0, 0), len: 16 },
        IpPrefix::V6 { addr: 0xfe80 << 112, len: 10 },
    ];
    let ips = Ips::from_ipnets(&nets).unwrap();
    let probes = [
        Addr::V4(v4(192, 168, 0, 1)),
        Addr::V4(v4(192, 168, 1, 255)),
        Addr::V4(v4(192, 168, 2, 0)),
        Addr::V4(v4(10, 20, 3, 4)),
        Addr::V4(v4(11, 0, 0, 0)),
        Addr::V6((0xfe80 << 112) | 5),
        Addr::V6(1),
    ];
    let expected = [true, true, false, true, false, true, false];
    for (a, e) in probes.iter().zip(expected.iter()) {
        assert_eq!(ips.contain_ip(*a), *e, "{:?}", a);
    }
}

#[test]
fn empty_ip_set_and_all_addresses() {
    let mut ips = Ips::default();
    assert!(!ips.contain_ip(Addr::V4(0)));
    ips.add_ip(IpPrefix::V4 { addr: v4(9, 9, 9, 9), len: 0 }).unwrap();
    ips.build();
    assert!(ips.contain_ip(Addr::V4(u32::MAX)));
    assert!(!ips.contain_ip(Addr::V6(0)));
}

#[test]
fn geo_records_to_prefixes() {
    assert_eq!(cidr_to_prefix(&[1, 0, 1, 0], 24), Some(IpPrefix::V4 { addr: v4(1, 0, 1, 0), len: 24 }));
    let mut v6 = [0u8; 16];
    v6[0] = 0x20;
    v6[1] = 0x01;
    v6[15] = 0x07;
    assert_eq!(
        cidr_to_prefix(&v6, 64),
        Some(IpPrefix::V6 { addr: (0x2001u128 << 112) | 7, len: 64 })
    );
    assert_eq!(cidr_to_prefix(&[1, 0, 1, 0], 33), None);
    assert_eq!(cidr_to_prefix(&v6, 129), None);
    assert_eq!(cidr_to_prefix(&[1, 2, 3], 8), None);
}
