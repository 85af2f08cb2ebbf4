use aardvark_dns::backend::DNSResult;
use aardvark_dns::config::{parse_config, ConfigError};
use aardvark_dns::ip::{parse_ip_str, IpAddress};
use aardvark_dns::loader::{listen_addresses, parse_configs};
use aardvark_dns::run::Run;

fn v4(a: u8, b: u8, c: u8, d: u8) -> IpAddress {
    IpAddress::V4(((a as u32) << 24) | ((b as u32) << 16) | ((c as u32) << 8) | d as u32)
}

fn files(entries: &[(&str, &str)]) -> Vec<(String, String)> {
    entries
        .iter()
        .map(|(n, c)| (n.to_string(), c.to_string()))
        .collect()
}

fn kind_of(text: &str) -> ConfigError {
    match parse_configs(&files(&[("net", text)])) {
        Ok(_) => panic!("descriptor must be refused"),
        Err(e) => {
            assert_eq!(e.file, "net");
            e.kind
        }
    }
}

const TWO_NETS_A: &str = "10.1.0.1
aaaa11112222 10.1.0.2  alpha
cccc33334444 10.1.0.3  shared
";

const TWO_NETS_B: &str = "10.2.0.1
bbbb11112222 10.2.0.2  beta
cccc33334444 10.2.0.3  shared
";

#[test]
fn ipv4_literals_read_as_numbers() {
    assert_eq!(parse_ip_str("10.88.0.1"), Some(IpAddress::V4(0x0A58_0001)));
    assert_eq!(parse_ip_str("255.255.255.255"), Some(IpAddress::V4(0xFFFF_FFFF)));
    assert_eq!(parse_ip_str("0.0.0.0"), Some(IpAddress::V4(0)));
}

#[test]
fn ipv6_literals_read_as_numbers() {
    assert_eq!(parse_ip_str("::1"), Some(IpAddress::V6(1)));
    assert_eq!(parse_ip_str("::"), Some(IpAddress::V6(0)));
    assert_eq!(
        parse_ip_str("fdfd::1"),
        Some(IpAddress::V6(0xfdfd_0000_0000_0000_0000_0000_0000_0001))
    );
    assert_eq!(
        parse_ip_str("1:2:3:4:5:6:7:8"),
        Some(IpAddress::V6(0x0001_0002_0003_0004_0005_0006_0007_0008))
    );
    assert_eq!(
        parse_ip_str("FDFD:733B:DC3:220B::2"),
        Some(IpAddress::V6(0xfdfd_733b_0dc3_220b_0000_0000_0000_0002))
    );
}

#[test]
fn malformed_literals_are_refused() {
    for s in [
        "", "1.2.3", "1.2.3.4.5", "256.1.1.1", "01.2.3.4", "1..2.3", "a.b.c.d", "1::2::3",
        "12345::", "1:2:3:4:5:6:7", "1:2:3:4:5:6:7:8:9", ":", "g::1",
    ] {
        assert_eq!(parse_ip_str(s), None, "{}", s);
    }
}

#[test]
fn descriptor_parse_keeps_order_and_lowercases() {
    let (bind, entries) =
        parse_config("10.1.0.1,fd00::1\n\nABC 10.1.0.2,10.1.0.9 fd00::2 Web,DB 9.9.9.9\n").unwrap();
    assert_eq!(bind, vec![v4(10, 1, 0, 1), IpAddress::V6(0xfd00_u128 << 112 | 1)]);
    assert_eq!(entries.len(), 1);
    let e = &entries[0];
    assert_eq!(e.id, "abc");
    assert_eq!(e.v4, vec![0x0A01_0002, 0x0A01_0009]);
    assert_eq!(e.v6, vec![0xfd00_u128 << 112 | 2]);
    assert_eq!(e.aliases, vec!["web".to_string(), "db".to_string()]);
    assert_eq!(e.dns_servers, Some(vec![v4(9, 9, 9, 9)]));
}

#[test]
fn error_too_few_fields() {
    assert_eq!(kind_of("10.1.0.1\nabc 10.1.0.2 \n"), ConfigError::TooFewFields);
}

#[test]
fn error_bad_container_address() {
    assert_eq!(kind_of("10.1.0.1\nabc 10.1.0.300  web\n"), ConfigError::BadAddress);
    assert_eq!(kind_of("10.1.0.1\nabc fd00::2  web\n"), ConfigError::BadAddress);
    assert_eq!(kind_of("10.1.0.1\nabc  10.1.0.2 web\n"), ConfigError::BadAddress);
    assert_eq!(kind_of("10.1.0.1\nabc 10.1.0.2  web nonsense\n"), ConfigError::BadAddress);
}

#[test]
fn error_bad_bind_address() {
    assert_eq!(kind_of("10.1.0.1,\n"), ConfigError::BadAddress);
}

#[test]
fn error_no_names() {
    assert_eq!(kind_of("10.1.0.1\nabc 10.1.0.2  \n"), ConfigError::NoNames);
}

#[test]
fn error_no_bind_address() {
    assert_eq!(kind_of(""), ConfigError::NoBindAddress);
    assert_eq!(kind_of("\n\n"), ConfigError::NoBindAddress);
}

#[test]
fn pid_file_is_passed_over() {
    let (b, l4, _) = parse_configs(&files(&[("aardvark.pid", "not a descriptor"), ("net", TWO_NETS_A)]))
        .ok()
        .unwrap();
    assert!(listen_addresses(&l4, "aardvark.pid").is_none());
    assert!(b.ip_mapping(&v4(10, 1, 0, 2)).is_some());
}

#[test]
fn upstream_selection_and_forwarding() {
    let text = "10.88.0.1
aaaa 10.88.0.5  hello 3.3.3.3,1.1.1.1,::1
bbbb 10.88.0.3  world
";
    let (b, _, _) = parse_configs(&files(&[("podman", text)])).ok().unwrap();
    let up = vec![v4(3, 3, 3, 3), v4(1, 1, 1, 1), IpAddress::V6(1)];
    assert_eq!(b.get_upstream(&v4(10, 88, 0, 5)), Some(up.clone()));
    assert_eq!(b.get_upstream(&v4(10, 88, 0, 3)), None);
    match b.lookup(&v4(10, 88, 0, 5), "elsewhere.example") {
        DNSResult::Forward(v) => assert_eq!(v, up),
        _ => panic!("expected forwarding"),
    }
    match b.lookup(&v4(10, 88, 0, 3), "elsewhere.example") {
        DNSResult::NXDomain => {}
        _ => panic!("expected NXDOMAIN"),
    }
    match b.lookup(&v4(10, 88, 0, 5), "WORLD") {
        DNSResult::Success(v) => assert_eq!(v, vec![v4(10, 88, 0, 3)]),
        _ => panic!("expected an answer"),
    }
}

#[test]
fn unknown_requester_gets_nxdomain() {
    let (b, _, _) = parse_configs(&files(&[("net", TWO_NETS_A)])).ok().unwrap();
    match b.lookup(&v4(192, 168, 1, 1), "alpha") {
        DNSResult::NXDomain => {}
        _ => panic!("expected NXDOMAIN"),
    }
    assert!(b.reverse_lookup(&v4(192, 168, 1, 1), &v4(10, 1, 0, 2)).is_none());
}

#[test]
fn networks_are_isolated() {
    let (b, _, _) =
        parse_configs(&files(&[("neta", TWO_NETS_A), ("netb", TWO_NETS_B)])).ok().unwrap();
    match b.lookup(&v4(10, 1, 0, 2), "beta") {
        DNSResult::NXDomain => {}
        _ => panic!("beta lives on another network"),
    }
    assert!(b.reverse_lookup(&v4(10, 1, 0, 2), &v4(10, 2, 0, 2)).is_none());
}

#[test]
fn shared_container_sees_both_networks_once() {
    let (b, _, _) =
        parse_configs(&files(&[("neta", TWO_NETS_A), ("netb", TWO_NETS_B)])).ok().unwrap();
    let nets = b.ip_mapping(&v4(10, 1, 0, 3)).unwrap();
    assert_eq!(*nets, vec!["neta".to_string(), "netb".to_string()]);
    let nets = b.ip_mapping(&v4(10, 2, 0, 3)).unwrap();
    assert_eq!(*nets, vec!["neta".to_string(), "netb".to_string()]);
    match b.lookup(&v4(10, 1, 0, 3), "beta") {
        DNSResult::Success(v) => assert_eq!(v, vec![v4(10, 2, 0, 2)]),
        _ => panic!("expected an answer"),
    }
    match b.lookup(&v4(10, 1, 0, 3), "shared") {
        DNSResult::Success(v) => assert_eq!(v, vec![v4(10, 1, 0, 3), v4(10, 2, 0, 3)]),
        _ => panic!("expected an answer"),
    }
}

#[test]
fn lookup_ignores_case_of_query() {
    let (b, _, _) = parse_configs(&files(&[("net", TWO_NETS_A)])).ok().unwrap();
    let s = v4(10, 1, 0, 2);
    let mut answers = Vec::new();
    for q in ["Alpha", "ALPHA", "alpha"] {
        match b.lookup(&s, q) {
            DNSResult::Success(v) => answers.push(v),
            _ => panic!("expected an answer"),
        }
    }
    assert_eq!(answers[0], vec![v4(10, 1, 0, 2)]);
    assert_eq!(answers[0], answers[1]);
    assert_eq!(answers[1], answers[2]);
}

#[test]
fn names_and_addresses_round_trip() {
    let (b, _, _) = parse_configs(&files(&[("net", TWO_NETS_A)])).ok().unwrap();
    let s = v4(10, 1, 0, 2);
    let names = b.reverse_lookup(&s, &v4(10, 1, 0, 3)).unwrap();
    assert!(names.contains(&"shared".to_string()));
    match b.lookup(&s, "shared") {
        DNSResult::Success(v) => assert!(v.contains(&v4(10, 1, 0, 3))),
        _ => panic!("expected an answer"),
    }
    assert_eq!(b.reverse_mapping("net", &v4(10, 1, 0, 3)).unwrap(), &vec!["shared".to_string()]);
    assert_eq!(b.name_mapping("net", "shared").unwrap(), &vec![v4(10, 1, 0, 3)]);
}

#[test]
fn repeated_loads_agree() {
    let dir = files(&[("neta", TWO_NETS_A), ("netb", TWO_NETS_B)]);
    let (b1, l41, l61) = parse_configs(&dir).ok().unwrap();
    let (b2, l42, l62) = parse_configs(&dir).ok().unwrap();
    assert_eq!(b1.ip_mappings, b2.ip_mappings);
    assert_eq!(b1.name_mappings, b2.name_mappings);
    assert_eq!(b1.reverse_mappings, b2.reverse_mappings);
    assert_eq!(b1.ctr_dns_server, b2.ctr_dns_server);
    assert_eq!(l41, l42);
    assert_eq!(l61, l62);
}

#[test]
fn shared_alias_lists_every_container() {
    let text = "10.3.0.1
aaaa 10.3.0.2  dup
bbbb 10.3.0.3  dup
";
    let (b, _, _) = parse_configs(&files(&[("net", text)])).ok().unwrap();
    match b.lookup(&v4(10, 3, 0, 2), "dup") {
        DNSResult::Success(v) => assert_eq!(v, vec![v4(10, 3, 0, 2), v4(10, 3, 0, 3)]),
        _ => panic!("expected an answer"),
    }
}

#[test]
fn run_command_builds() {
    let _a = Run::new();
    let _b: Run = Default::default();
}
