use aardvark_dns::dns::parse_question;
use aardvark_dns::ip::IpAddress;
use aardvark_dns::loader::parse_configs;
use aardvark_dns::query::{handle_query, Reply};

const NET: &str = "10.88.0.1
aaaa 10.88.0.2 fd00::2 web
bbbb 10.88.0.5  HelloWorld 3.3.3.3
";

fn backend() -> aardvark_dns::backend::DNSBackend {
    let files = vec![("podman".to_string(), NET.to_string())];
    parse_configs(&files).ok().unwrap().0
}

fn query(id: u16, name: &str, qtype: u16, qclass: u16) -> Vec<u8> {
    let mut m = vec![(id >> 8) as u8, id as u8, 0x01, 0x00, 0, 1, 0, 0, 0, 0, 0, 0];
    for label in name.split('.') {
        m.push(label.len() as u8);
        m.extend_from_slice(label.as_bytes());
    }
    m.push(0);
    m.extend_from_slice(&qtype.to_be_bytes());
    m.extend_from_slice(&qclass.to_be_bytes());
    m
}

fn source() -> IpAddress {
    IpAddress::V4(0x0A58_0002)
}

fn respond(m: &[u8]) -> Vec<u8> {
    match handle_query(&backend(), &source(), &m.to_vec(), "dns.podman") {
        Reply::Respond(out) => out,
        _ => panic!("expected a response"),
    }
}

#[test]
fn question_is_read() {
    let m = query(0x1234, "Web.example", 28, 1);
    let q = parse_question(&m).unwrap();
    assert_eq!(q.id, 0x1234);
    assert!(q.rd);
    assert_eq!(q.name, b"Web.example".to_vec());
    assert_eq!(q.qtype, 28);
    assert_eq!(q.qclass, 1);
    assert_eq!(q.end, m.len());
}

#[test]
fn responses_are_not_questions() {
    let mut m = query(1, "web", 1, 1);
    m[2] |= 0x80;
    assert!(parse_question(&m).is_none());
    assert!(parse_question(&m[..11].to_vec()).is_none());
}

#[test]
fn a_query_is_answered_with_v4_records() {
    let m = query(0x1234, "HELLOWORLD", 1, 1);
    let out = respond(&m);
    let mut expected = vec![0x12, 0x34, 0x85, 0x00, 0, 1, 0, 1, 0, 0, 0, 0];
    expected.extend_from_slice(&m[12..]);
    expected.extend_from_slice(&[0xC0, 0x0C, 0, 1, 0, 1, 0, 0, 0, 60, 0, 4, 10, 88, 0, 5]);
    assert_eq!(out, expected);
}

#[test]
fn aaaa_query_keeps_only_v6_records() {
    let m = query(7, "web.dns.podman", 28, 1);
    let out = respond(&m);
    assert_eq!(&out[6..8], &[0, 1]);
    let tail = &out[m.len()..];
    assert_eq!(&tail[..12], &[0xC0, 0x0C, 0, 28, 0, 1, 0, 0, 0, 60, 0, 16]);
    let mut v6 = [0u8; 16];
    v6[0] = 0xfd;
    v6[15] = 2;
    assert_eq!(&tail[12..], &v6);
}

#[test]
fn unknown_name_gets_nxdomain() {
    let m = query(9, "nothere", 1, 1);
    let out = respond(&m);
    assert_eq!(out[3] & 0x0F, 3);
    assert_eq!(&out[6..8], &[0, 0]);
}

#[test]
fn other_class_is_refused() {
    let m = query(9, "web", 1, 3);
    let out = respond(&m);
    assert_eq!(out[3] & 0x0F, 5);
}

#[test]
fn unsupported_type_gets_empty_answer() {
    let m = query(9, "web", 16, 1);
    let out = respond(&m);
    assert_eq!(out[3] & 0x0F, 0);
    assert_eq!(&out[6..8], &[0, 0]);
}

#[test]
fn garbage_gets_formerr() {
    let out = respond(&[0xAB, 0xCD, 0x00]);
    assert_eq!(out, vec![0xAB, 0xCD, 0x80, 1, 0, 0, 0, 0, 0, 0, 0, 0]);
    match handle_query(&backend(), &source(), &vec![1u8], "") {
        Reply::Drop => {}
        _ => panic!("a single byte cannot be answered"),
    }
}

#[test]
fn unknown_name_with_upstream_is_forwarded() {
    let m = query(9, "example.com", 1, 1);
    match handle_query(&backend(), &IpAddress::V4(0x0A58_0005), &m, "") {
        Reply::Forward(up) => assert_eq!(up, vec![IpAddress::V4(0x0303_0303)]),
        _ => panic!("expected forwarding"),
    }
}

fn ip6_arpa(v: u128) -> String {
    let mut s = String::new();
    for i in 0..32 {
        let nibble = (v >> (4 * i)) & 0xF;
        s.push_str(&format!("{:x}.", nibble));
    }
    s.push_str("ip6.arpa");
    s
}

#[test]
fn reverse_names_read_as_addresses() {
    let cs: Vec<char> = "5.0.88.10.in-addr.arpa".chars().collect();
    assert_eq!(aardvark_dns::ptr::ptr_target(&cs), Some(IpAddress::V4(0x0A58_0005)));
    let v6 = 0xfdfd_733b_0dc3_220b_0000_0000_0000_0002_u128;
    let cs: Vec<char> = ip6_arpa(v6).chars().collect();
    assert_eq!(aardvark_dns::ptr::ptr_target(&cs), Some(IpAddress::V6(v6)));
    let cs: Vec<char> = "5.0.88.in-addr.arpa".chars().collect();
    assert_eq!(aardvark_dns::ptr::ptr_target(&cs), None);
}

#[test]
fn ptr_query_is_answered_with_names() {
    let m = query(0x4242, "5.0.88.10.in-addr.arpa", 12, 1);
    let out = respond(&m);
    let mut expected = vec![0x42, 0x42, 0x85, 0x00, 0, 1, 0, 1, 0, 0, 0, 0];
    expected.extend_from_slice(&m[12..]);
    expected.extend_from_slice(&[0xC0, 0x0C, 0, 12, 0, 1, 0, 0, 0, 60, 0, 12, 10]);
    expected.extend_from_slice(b"helloworld");
    expected.push(0);
    assert_eq!(out, expected);
}

#[test]
fn ptr_query_for_v6_address() {
    let m = query(3, &ip6_arpa(0xfd00_u128 << 112 | 2), 12, 1);
    let out = respond(&m);
    assert_eq!(&out[6..8], &[0, 1]);
    let tail = &out[m.len()..];
    assert_eq!(&tail[10..], &[0, 5, 3, b'w', b'e', b'b', 0]);
}

#[test]
fn ptr_query_for_unknown_address_gets_nxdomain() {
    let m = query(3, "9.9.9.9.in-addr.arpa", 12, 1);
    let out = respond(&m);
    assert_eq!(out[3] & 0x0F, 3);
}

#[test]
fn long_udp_responses_are_truncated() {
    let m = query(1, "web", 1, 1);
    let short = vec![1u8, 2, 0x85, 0, 0, 1, 0, 1, 0, 0, 0, 0];
    assert_eq!(aardvark_dns::dns::fit_udp(short.clone(), &m), short);
    let mut long = vec![1u8, 2, 0x85, 0, 0, 1, 0, 40];
    long.resize(600, 7);
    assert_eq!(
        aardvark_dns::dns::fit_udp(long.clone(), &m),
        vec![1, 2, 0x87, 0, 0, 0, 0, 0, 0, 0, 0, 0]
    );
    let mut with_opt = m.clone();
    with_opt[11] = 1;
    with_opt.extend_from_slice(&[0, 0, 41, 0x10, 0x00, 0, 0, 0, 0, 0, 0]);
    assert_eq!(aardvark_dns::dns::fit_udp(long.clone(), &with_opt), long);
}

#[test]
fn edns_query_gets_opt_record_back() {
    let mut m = query(0x1234, "web", 1, 1);
    m[11] = 1;
    m.extend_from_slice(&[0, 0, 41, 0x10, 0x00, 0, 0, 0, 0, 0, 0]);
    let q = parse_question(&m).unwrap();
    assert!(q.edns);
    let out = respond(&m);
    let mut expected = vec![0x12, 0x34, 0x85, 0x00, 0, 1, 0, 1, 0, 0, 0, 1];
    expected.extend_from_slice(&m[12..q.end]);
    expected.extend_from_slice(&[0xC0, 0x0C, 0, 1, 0, 1, 0, 0, 0, 60, 0, 4, 10, 88, 0, 2]);
    expected.extend_from_slice(&[0, 0, 41, 0x04, 0xD0, 0, 0, 0, 0, 0, 0]);
    assert_eq!(out, expected);
}
