use rados::mon::resolution::{srv_query, Resolution, Step};
use rados::mon::seeds::{
    entity_address, normalize_ip, parse_location, parse_seed, Endpoint, Host, Ip, SeedError,
    SeedLimits, SocketAddress, SrvRecord,
};
use std::collections::{HashMap, HashSet};

#[derive(Default)]
struct FakeResolver {
    ips: HashMap<String, Vec<Ip>>,
    failed_ips: HashSet<String>,
    srv: Vec<SrvRecord>,
    calls: Vec<String>,
}

fn parse_ipv4(text: &str) -> Option<u32> {
    let mut bits: u32 = 0;
    let parts: Vec<&str> = text.split('.').collect();
    if parts.len() != 4 {
        return None;
    }
    for part in parts {
        bits = bits << 8 | u32::from(part.parse::<u8>().ok()?);
    }
    Some(bits)
}

fn parse_groups(text: &str) -> Option<Vec<u16>> {
    let mut groups = Vec::new();
    if text.is_empty() {
        return Some(groups);
    }
    for part in text.split(':') {
        if let Some(bits) = parse_ipv4(part) {
            groups.push((bits >> 16) as u16);
            groups.push((bits & 0xffff) as u16);
        } else {
            groups.push(u16::from_str_radix(part, 16).ok()?);
        }
    }
    Some(groups)
}

fn parse_ip(text: &str) -> Option<Ip> {
    if let Some(bits) = parse_ipv4(text) {
        return Some(Ip::V4(bits));
    }
    let (head, tail) = text.split_once("::")?;
    let mut groups = parse_groups(head)?;
    let tail = parse_groups(tail)?;
    if groups.len() + tail.len() > 7 {
        return None;
    }
    groups.resize(8 - tail.len(), 0);
    groups.extend(tail);
    Some(Ip::V6(groups.iter().fold(0, |bits, group| {
        bits << 16 | u128::from(*group)
    })))
}

fn parse_socket(text: &str) -> Option<SocketAddress> {
    let (host, port) = text.rsplit_once(':')?;
    let port = port.parse::<u16>().ok()?;
    if let Some(bits) = parse_ipv4(host) {
        return Some(SocketAddress::V4 { bits, port });
    }
    match parse_ip(host.strip_prefix('[')?.strip_suffix(']')?)? {
        Ip::V4(_) => None,
        Ip::V6(bits) => Some(SocketAddress::V6 {
            bits,
            port,
            scope_id: 0,
        }),
    }
}

fn ip(text: &str) -> Ip {
    parse_ip(text).expect("address")
}

fn socket(text: &str) -> SocketAddress {
    parse_socket(text).expect("socket address")
}

fn limits(max_seeds: u32, max_addresses: u32) -> SeedLimits {
    SeedLimits {
        max_seeds,
        max_addresses,
    }
}

fn strings(values: &[&str]) -> Vec<String> {
    values.iter().map(|value| (*value).to_owned()).collect()
}

fn resolve_seeds(
    seeds: &[&str],
    resolver: &mut FakeResolver,
    limits: SeedLimits,
) -> Result<Vec<Endpoint>, SeedError> {
    let mut resolution = Resolution::new(strings(seeds), limits)?;
    let mut step = resolution.start();
    loop {
        step = match step {
            Step::Parse { text } => {
                resolution.parsed(parse_ip(&text), parse_socket(&text))
            }
            Step::LookupSrv { name } => {
                resolver.calls.push(srv_query("ceph-mon", "tcp", &name));
                let answer = resolver.srv.to_vec();
                resolution.records_found(Ok(answer))
            }
            Step::LookupIp { host } => {
                resolver.calls.push(format!("ip:{host}"));
                if resolver.failed_ips.contains(&host) {
                    resolution.addresses_found(Err(SeedError::Lookup {
                        operation: "address",
                        name: host,
                        source: "scripted lookup failure".to_owned(),
                    }))
                } else {
                    let answer = resolver.ips.get(&host).cloned().unwrap_or_default();
                    resolution.addresses_found(Ok(answer))
                }
            }
            Step::Done(Ok(())) => return Ok(resolution.endpoints),
            Step::Done(Err(error)) => return Err(error),
        };
    }
}

fn addresses(endpoints: &[Endpoint]) -> Vec<SocketAddress> {
    endpoints.iter().map(|endpoint| endpoint.address).collect()
}

#[test]
fn resolves_explicit_ip_host_and_srv_in_source_order() {
    let mut resolver = FakeResolver {
        ips: HashMap::from([
            ("mon.example".to_owned(), vec![ip("192.0.2.2")]),
            ("srv.example".to_owned(), vec![ip("2001:db8::2")]),
        ]),
        srv: vec![SrvRecord {
            target: "srv.example.".to_owned(),
            port: 4400,
            priority: 9,
            weight: 10,
        }],
        ..FakeResolver::default()
    };
    let endpoints = resolve_seeds(
        &["v2:192.0.2.1:3300/7", "mon.example", "dns-srv:example."],
        &mut resolver,
        limits(4, 4),
    )
    .unwrap();
    assert_eq!(
        addresses(&endpoints),
        [
            socket("192.0.2.1:3300"),
            socket("192.0.2.2:3300"),
            socket("[2001:db8::2]:4400")
        ]
    );
    assert_eq!((endpoints[2].priority, endpoints[2].weight), (9, 10));
    assert_eq!(
        resolver.calls,
        [
            "ip:mon.example",
            "_ceph-mon._tcp.example",
            "ip:srv.example"
        ]
    );
}

#[test]
fn lookup_failures_do_not_discard_usable_alternatives() {
    let mut resolver = FakeResolver {
        ips: HashMap::from([("good.example".to_owned(), vec![ip("192.0.2.8")])]),
        failed_ips: HashSet::from(["bad.example".to_owned(), "bad-srv.example".to_owned()]),
        srv: vec![
            SrvRecord {
                target: "bad-srv.example".to_owned(),
                port: 3300,
                priority: 0,
                weight: 0,
            },
            SrvRecord {
                target: "good.example".to_owned(),
                port: 4400,
                priority: 0,
                weight: 0,
            },
        ],
        ..FakeResolver::default()
    };
    let endpoints = resolve_seeds(
        &["bad.example", "dns-srv:example"],
        &mut resolver,
        limits(2, 4),
    )
    .expect("healthy alternatives");
    assert_eq!(addresses(&endpoints), [socket("192.0.2.8:4400")]);

    assert_eq!(
        resolve_seeds(&["bad.example"], &mut resolver, limits(1, 1)),
        Err(SeedError::Lookup {
            operation: "address",
            name: "bad.example".to_owned(),
            source: "scripted lookup failure".to_owned(),
        })
    );
}

#[test]
fn parses_bracketed_ipv6_and_explicit_hostname_port() {
    let mut resolver = FakeResolver {
        ips: HashMap::from([("mon.example".to_owned(), vec![ip("192.0.2.8")])]),
        ..FakeResolver::default()
    };
    let endpoints = resolve_seeds(
        &["[2001:db8::1]:4400", "mon.example:5500"],
        &mut resolver,
        limits(2, 2),
    )
    .unwrap();
    assert_eq!(endpoints[0].address, socket("[2001:db8::1]:4400"));
    assert_eq!(endpoints[1].address, socket("192.0.2.8:5500"));
    assert_eq!(endpoints[0].entity_address.endpoint(), None);
}

#[test]
fn ignores_v1_in_mixed_vectors_but_rejects_v1_only() {
    let mut resolver = FakeResolver::default();
    let endpoints = resolve_seeds(
        &["v1:192.0.2.9:6789", "v2:192.0.2.1:3300"],
        &mut resolver,
        limits(2, 2),
    )
    .unwrap();
    assert_eq!(endpoints.len(), 1);
    assert_eq!(
        resolve_seeds(&["v1:192.0.2.9:6789"], &mut resolver, limits(1, 1)),
        Err(SeedError::UnsupportedVersion)
    );
}

#[test]
fn deduplicates_in_first_seen_order_and_unmaps_ipv4() {
    let mut resolver = FakeResolver {
        ips: HashMap::from([(
            "mon.example".to_owned(),
            vec![
                ip("::ffff:192.0.2.1"),
                ip("192.0.2.2"),
                ip("192.0.2.2"),
            ],
        )]),
        ..FakeResolver::default()
    };
    let endpoints = resolve_seeds(
        &["192.0.2.1", "mon.example"],
        &mut resolver,
        limits(2, 3),
    )
    .unwrap();
    assert_eq!(
        addresses(&endpoints),
        [socket("192.0.2.1:3300"), socket("192.0.2.2:3300")]
    );
}

#[test]
fn enforces_source_per_answer_and_aggregate_limits() {
    let mut resolver = FakeResolver {
        ips: HashMap::from([(
            "many".to_owned(),
            vec![ip("192.0.2.1"), ip("192.0.2.2")],
        )]),
        ..FakeResolver::default()
    };
    assert_eq!(
        resolve_seeds(&["a", "b"], &mut resolver, limits(1, 2)),
        Err(SeedError::LimitExceeded)
    );
    assert_eq!(
        resolve_seeds(&["many"], &mut resolver, limits(1, 1)),
        Err(SeedError::LimitExceeded)
    );
    assert_eq!(
        resolve_seeds(&["192.0.2.1", "192.0.2.2"], &mut resolver, limits(2, 1)),
        Err(SeedError::LimitExceeded)
    );
}

#[test]
fn rejects_malformed_ports_nonces_and_ip_literals() {
    let mut resolver = FakeResolver::default();
    for seed in [
        "192.0.2.1:0",
        "192.0.2.1:65536",
        "192.0.2.1:nope",
        "v2:192.0.2.1:3300/",
        "v2:192.0.2.1:3300/4294967296",
        "v2:192.0.2.1:3300/1/2",
        "[2001:db8::1",
        "[2001:db8::1]:65536",
    ] {
        assert!(
            matches!(
                resolve_seeds(&[seed], &mut resolver, limits(1, 1)),
                Err(SeedError::Malformed(_))
            ),
            "seed={seed:?}"
        );
    }
}

#[test]
fn numeric_addresses_do_not_invoke_dns() {
    let mut resolver = FakeResolver::default();
    resolve_seeds(
        &["192.0.2.1", "2001:db8::1"],
        &mut resolver,
        limits(2, 2),
    )
    .unwrap();
    assert!(resolver.calls.is_empty());
}

#[test]
fn skips_unspecified_answers_and_rejects_empty_results() {
    let mut resolver = FakeResolver {
        ips: HashMap::from([(
            "mon.example".to_owned(),
            vec![ip("0.0.0.0"), ip("::")],
        )]),
        ..FakeResolver::default()
    };
    assert_eq!(
        resolve_seeds(&["mon.example"], &mut resolver, limits(1, 2)),
        Err(SeedError::Malformed(
            "monitor seeds resolved to no addresses"
        ))
    );
}

#[test]
fn seed_locations_lose_protocol_nonce_and_white_space() {
    assert_eq!(
        parse_seed(" \u{2003}v2:mon.example:3300/17\t"),
        Ok("mon.example:3300".to_owned())
    );
    assert_eq!(parse_seed("mon/+5"), Ok("mon".to_owned()));
    assert_eq!(
        parse_seed("mon/-5"),
        Err(SeedError::Malformed("invalid monitor nonce"))
    );
    assert_eq!(parse_seed("v1:mon"), Err(SeedError::UnsupportedVersion));
}

#[test]
fn locations_name_a_host_and_a_port() {
    assert_eq!(
        parse_location("mon.example", None, None),
        Ok((Host::Name("mon.example".to_owned()), 3300))
    );
    assert_eq!(
        parse_location("mon.example:6000", None, None),
        Ok((Host::Name("mon.example".to_owned()), 6000))
    );
    assert_eq!(
        parse_location("10.0.0.1", Some(Ip::V4(0x0a00_0001)), None),
        Ok((Host::Address(Ip::V4(0x0a00_0001)), 3300))
    );
    assert_eq!(
        parse_location("[::1]:7", None, Some(socket("[::1]:7"))),
        Ok((Host::Address(Ip::V6(1)), 7))
    );
    assert_eq!(
        parse_location("[::1]:0", None, Some(socket("[::1]:0"))),
        Err(SeedError::Malformed("invalid monitor port"))
    );
    for text in ["", ":3300", "a:b:3300", "[nonsense"] {
        assert_eq!(
            parse_location(text, None, None),
            Err(SeedError::Malformed("invalid monitor seed")),
            "text={text:?}"
        );
    }
    assert_eq!(
        parse_location("mon:0", None, None),
        Err(SeedError::Malformed("invalid monitor port"))
    );
}

#[test]
fn an_empty_service_name_is_malformed() {
    let mut resolver = FakeResolver::default();
    assert_eq!(
        resolve_seeds(&["dns-srv:."], &mut resolver, limits(1, 1)),
        Err(SeedError::Malformed("empty monitor SRV name"))
    );
}

#[test]
fn messenger_addresses_of_endpoints_are_exact() {
    let ipv6 = entity_address(socket("[2001:db8::9]:4660")).expect("address");
    let mut expected = vec![0x12, 0x34, 0, 0, 0, 0, 0x20, 0x01, 0x0d, 0xb8];
    expected.extend([0; 11]);
    expected.push(9);
    expected.extend([0; 4]);
    assert_eq!((ipv6.kind, ipv6.nonce, ipv6.family), (2, 0, 10));
    assert_eq!(ipv6.socket_data, expected);

    let ipv4 = entity_address(socket("192.0.2.7:3300")).expect("address");
    assert_eq!((ipv4.kind, ipv4.nonce, ipv4.family), (2, 0, 2));
    assert_eq!(ipv4.endpoint_text(), "192.0.2.7:3300");

    assert_eq!(
        entity_address(SocketAddress::V6 {
            bits: 1,
            port: 1,
            scope_id: 3
        }),
        Err(SeedError::Malformed("zoned monitor IPv6 is unsupported"))
    );
    assert_eq!(normalize_ip(ip("::ffff:1.2.3.4")), ip("1.2.3.4"));
    assert_eq!(normalize_ip(ip("::1.2.3.4")), ip("::1.2.3.4"));
}
