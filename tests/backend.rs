use aardvark_dns::backend::{DNSBackend, DNSResult};
use aardvark_dns::ip::{parse_ip_str, IpAddress};
use aardvark_dns::loader::{listen_addresses, parse_configs, LoadError};

type Loaded = (DNSBackend, Vec<(String, Vec<u32>)>, Vec<(String, Vec<u128>)>);

fn ip(s: &str) -> IpAddress {
    parse_ip_str(s).unwrap()
}

fn dir(entries: &[(&str, &str)]) -> Vec<(String, String)> {
    entries
        .iter()
        .map(|(n, c)| (n.to_string(), c.to_string()))
        .collect()
}

const PODMAN: &str = "10.88.0.1
68fb291b0318b54a71f6f3636e58bd0896f084e5ba4fa311ecf36e019c5e6e43 10.88.0.2  condescendingnash
68fb291b0318b54a71f6f3636e58bd0896f084e5ba4fa311ecf36e019c5e6e48 10.88.0.5  HelloWorld
95655fb6832ba134efa66e9c80862a6c9b04f3cc6abf8adfdda8c38112c2c6fa 10.88.0.3  stupefied_tesla
8bcc5fe0cb09bee5dfb71d61503a87688cfc82aa5f130bcedb19357a17765926 10.88.0.4  trustingzhukovsky,ctr1,ctra
";

const PODMAN_CUSTOM_DNS: &str = "10.88.0.1
68fb291b0318b54a71f6f3636e58bd0896f084e5ba4fa311ecf36e019c5e6e43 10.88.0.2  condescendingnash 8.8.8.8
68fb291b0318b54a71f6f3636e58bd0896f084e5ba4fa311ecf36e019c5e6e48 10.88.0.5  HelloWorld 3.3.3.3,1.1.1.1,::1
95655fb6832ba134efa66e9c80862a6c9b04f3cc6abf8adfdda8c38112c2c6fa 10.88.0.3  stupefied_tesla
8bcc5fe0cb09bee5dfb71d61503a87688cfc82aa5f130bcedb19357a17765926 10.88.0.4  trustingzhukovsky,ctr1,ctra
";

const PODMAN_BAD: &str = "10.88.0.1
68fb291b0318b54a71f6f3636e58bd0896f084e5ba4fa311ecf36e019c5e6e43 10.88.0.2
";

const PODMAN_V6: &str = "10.89.0.1,fdfd:733b:dc3:220b::1
7b46c7ad93fcbcb945c35286a5ba19d6976093e0cbd4fc20fe3d1a6d7a1a1e4d 10.89.0.2 fdfd:733b:dc3:220b::2 test1,7b46c7ad93fc
88dde8a2489780d3c8c90db54a9a97faf5dbe4f6b23b85880675e9136cb4be33 10.89.0.3 fdfd:733b:dc3:220b::3 test2,88dde8a24897
";

const PODMAN_V6_PROPER: &str = "10.0.0.1,10.0.1.1,fdfd::1,fddd::1
f35256b5e2f72ec8cb7d974d4f8841686fc8921fdfbc867285b50164e313f715 10.0.0.2,10.0.1.2 fdfd::2,fddd::2 testmulti1
e5df0cdbe0136a30cc3e848d495d2cc6dada25b7dedc776b4584ce2cbba6f06f 10.0.0.3,10.0.1.3 fdfd::3,fddd::3 testmulti2
";

fn podman_dir() -> Vec<(String, String)> {
    dir(&[("aardvark.pid", "4242\n"), ("podman", PODMAN)])
}

fn podman_custom_dns_dir() -> Vec<(String, String)> {
    dir(&[("podman", PODMAN_CUSTOM_DNS)])
}

fn podman_bad_dir() -> Vec<(String, String)> {
    dir(&[("podman", PODMAN_BAD)])
}

fn podman_v6_dir() -> Vec<(String, String)> {
    dir(&[
        ("podman_v6_entries", PODMAN_V6),
        ("podman_v6_entries_proper", PODMAN_V6_PROPER),
    ])
}

fn load(files: Vec<(String, String)>) -> Loaded {
    match parse_configs(&files) {
        Ok(l) => l,
        Err(e) => panic!("{}: {:?}", e.file, e.kind),
    }
}

fn expect_success(r: DNSResult) -> Vec<IpAddress> {
    match r {
        DNSResult::Success(v) => v,
        _ => panic!("unexpected dns result"),
    }
}

#[test]
fn test_loading_config_file() {
    match parse_configs(&podman_dir()) {
        Ok(_) => {}
        Err(e) => panic!("{}: {:?}", e.file, e.kind),
    }
}

#[test]
fn test_loading_config_file_with_dns_servers() {
    match parse_configs(&podman_custom_dns_dir()) {
        Ok(_) => {}
        Err(e) => panic!("{}: {:?}", e.file, e.kind),
    }
}

#[test]
fn test_parsing_config_files() {
    let (_, listen_ip_v4, _) = load(podman_dir());
    let v4 = listen_addresses(&listen_ip_v4, "podman").unwrap();
    assert_eq!(v4.len(), 1);
    assert_eq!(ip("10.88.0.1"), IpAddress::V4(v4[0]));
}

#[test]
fn test_parsing_bad_config_files() {
    match parse_configs(&podman_bad_dir()) {
        Ok(_) => panic!("parsing bad config must fail"),
        Err(LoadError { .. }) => {}
    }
}

#[test]
fn test_backend_custom_dns_server() {
    let (backend, _, _) = load(podman_custom_dns_dir());
    let mut dns_server = backend.dns_server(&ip("10.88.0.2"));
    let mut expected_dns_server = IpAddress::V4(0x0808_0808);
    assert_eq!(dns_server.unwrap().clone().unwrap()[0], expected_dns_server);

    dns_server = backend.dns_server(&ip("10.88.0.5"));
    expected_dns_server = IpAddress::V4(0x0303_0303);
    assert_eq!(dns_server.unwrap().clone().unwrap()[0], expected_dns_server);
    expected_dns_server = IpAddress::V4(0x0101_0101);
    assert_eq!(dns_server.unwrap().clone().unwrap()[1], expected_dns_server);
    expected_dns_server = IpAddress::V6(1);
    assert_eq!(dns_server.unwrap().clone().unwrap()[2], expected_dns_server);

    dns_server = backend.dns_server(&ip("10.88.0.3"));
    assert_eq!(dns_server.unwrap().clone(), None);
}

#[test]
fn test_lookup_queries_from_backend_simulate_same_container_request_from_v4_on_v4_entries() {
    let (backend, _, _) = load(podman_dir());
    let ip_vec = expect_success(backend.lookup(&ip("10.88.0.2"), "condescendingnash"));
    assert_eq!(ip_vec.len(), 1);
    assert_eq!(ip("10.88.0.2"), ip_vec[0]);
}

#[test]
fn test_lookup_queries_from_backend_simulate_same_container_request_from_v4_on_v4_entries_case_insensitive(
) {
    let (backend, _, _) = load(podman_dir());
    let ip_vec = expect_success(backend.lookup(&ip("10.88.0.2"), "helloworld"));
    assert_eq!(ip_vec.len(), 1);
    assert_eq!(ip("10.88.0.5"), ip_vec[0]);
}

#[test]
fn test_lookup_queries_from_backend_simulate_same_container_request_from_v4_on_v4_entries_case_insensitive_uppercase(
) {
    let (backend, _, _) = load(podman_dir());
    let ip_vec = expect_success(backend.lookup(&ip("10.88.0.2"), "HELLOWORLD"));
    assert_eq!(ip_vec.len(), 1);
    assert_eq!(ip("10.88.0.5"), ip_vec[0]);
}

#[test]
fn test_lookup_queries_from_backend_simulate_nx_domain() {
    let (backend, _, _) = load(podman_dir());
    match backend.lookup(&ip("10.88.0.2"), "somebadquery") {
        DNSResult::NXDomain => {}
        _ => panic!("unexpected dns result"),
    }
}

#[test]
fn test_lookup_queries_from_backend_simulate_different_container_request_from_v4() {
    let (backend, _, _) = load(podman_dir());
    let ip_vec = expect_success(backend.lookup(&ip("10.88.0.2"), "trustingzhukovsky"));
    assert_eq!(ip_vec.len(), 1);
    assert_eq!(ip("10.88.0.4"), ip_vec[0]);
}

#[test]
fn test_lookup_queries_from_backend_simulate_different_container_request_from_v4_by_alias() {
    let (backend, _, _) = load(podman_dir());
    let ip_vec = expect_success(backend.lookup(&ip("10.88.0.2"), "ctr1"));
    assert_eq!(ip_vec.len(), 1);
    assert_eq!(ip("10.88.0.4"), ip_vec[0]);
}

#[test]
fn test_lookup_queries_from_backend_simulate_same_container_request_from_v4_on_v6_and_v4_entries(
) {
    let (backend, listen_ip_v4, listen_ip_v6) = load(podman_v6_dir());
    assert!(listen_addresses(&listen_ip_v6, "podman_v6_entries").is_some());
    assert!(listen_addresses(&listen_ip_v4, "podman_v6_entries").is_some());
    let ip_vec = expect_success(backend.lookup(&ip("10.89.0.2"), "test1"));
    assert_eq!(ip_vec.len(), 2);
    assert_eq!(ip("10.89.0.2"), ip_vec[0]);
    assert_eq!(ip("fdfd:733b:dc3:220b::2"), ip_vec[1]);
}

#[test]
fn test_lookup_queries_from_backend_simulate_same_container_request_from_v6_on_v6_and_v4_entries(
) {
    let (backend, listen_ip_v4, listen_ip_v6) = load(podman_v6_dir());
    assert!(listen_addresses(&listen_ip_v6, "podman_v6_entries").is_some());
    assert!(listen_addresses(&listen_ip_v4, "podman_v6_entries").is_some());
    let ip_vec = expect_success(backend.lookup(&ip("fdfd:733b:dc3:220b::2"), "test1"));
    assert_eq!(ip_vec.len(), 2);
    assert_eq!(ip("10.89.0.2"), ip_vec[0]);
    assert_eq!(ip("fdfd:733b:dc3:220b::2"), ip_vec[1]);
}

#[test]
fn test_lookup_queries_from_backend_simulate_different_container_request_from_v6_on_v6_and_v4_entries(
) {
    let (backend, listen_ip_v4, listen_ip_v6) = load(podman_v6_dir());
    assert!(listen_addresses(&listen_ip_v6, "podman_v6_entries").is_some());
    assert!(listen_addresses(&listen_ip_v4, "podman_v6_entries").is_some());
    let ip_vec = expect_success(backend.lookup(&ip("fdfd:733b:dc3:220b::2"), "test2"));
    assert_eq!(ip_vec.len(), 2);
    assert_eq!(ip("10.89.0.3"), ip_vec[0]);
    assert_eq!(ip("fdfd:733b:dc3:220b::3"), ip_vec[1]);
}

#[test]
fn test_lookup_queries_from_backend_simulate_different_container_request_from_v4_on_v6_and_v4_entries(
) {
    let (backend, listen_ip_v4, listen_ip_v6) = load(podman_v6_dir());
    assert!(listen_addresses(&listen_ip_v6, "podman_v6_entries").is_some());
    assert!(listen_addresses(&listen_ip_v4, "podman_v6_entries").is_some());
    let ip_vec = expect_success(backend.lookup(&ip("10.89.0.2"), "test2"));
    assert_eq!(ip_vec.len(), 2);
    assert_eq!(ip("10.89.0.3"), ip_vec[0]);
    assert_eq!(ip("fdfd:733b:dc3:220b::3"), ip_vec[1]);
}

#[test]
fn test_lookup_queries_from_backend_simulate_different_container_request_by_id_from_v4_on_v6_and_v4_entries(
) {
    let (backend, listen_ip_v4, listen_ip_v6) = load(podman_v6_dir());
    assert!(listen_addresses(&listen_ip_v6, "podman_v6_entries").is_some());
    assert!(listen_addresses(&listen_ip_v4, "podman_v6_entries").is_some());
    let ip_vec = expect_success(backend.lookup(&ip("10.89.0.2"), "88dde8a24897"));
    assert_eq!(ip_vec.len(), 2);
    assert_eq!(ip("10.89.0.3"), ip_vec[0]);
    assert_eq!(ip("fdfd:733b:dc3:220b::3"), ip_vec[1]);
}

#[test]
fn test_reverse_lookup_queries_from_backend_by_ip_v4() {
    let (backend, _, _) = load(podman_dir());
    match backend.reverse_lookup(&ip("10.88.0.4"), &ip("10.88.0.4")) {
        Some(lookup_vec) => {
            assert_eq!(
                &vec![
                    "trustingzhukovsky".to_string(),
                    "ctr1".to_string(),
                    "ctra".to_string()
                ],
                lookup_vec
            );
        }
        _ => panic!("unexpected dns result"),
    }
}

#[test]
fn test_reverse_lookup_queries_from_backend_by_ip_v6() {
    let (backend, _, _) = load(podman_v6_dir());
    match backend.reverse_lookup(&ip("fdfd:733b:dc3:220b::2"), &ip("fdfd:733b:dc3:220b::2")) {
        Some(lookup_vec) => {
            assert_eq!(
                &vec!["test1".to_string(), "7b46c7ad93fc".to_string()],
                lookup_vec
            );
        }
        _ => panic!("unexpected dns result"),
    }
}

#[test]
fn test_generated_ip_mappings_in_backend() {
    let (backend, listen_ip_v4, listen_ip_v6) = load(podman_v6_dir());
    assert!(listen_addresses(&listen_ip_v6, "podman_v6_entries").is_some());
    assert!(listen_addresses(&listen_ip_v4, "podman_v6_entries").is_some());
    assert!(backend.ip_mapping(&ip("fdfd:733b:dc3:220b::2")).is_some());
    assert!(backend.ip_mapping(&ip("10.89.0.3")).is_some());
    assert_eq!(
        vec!["podman_v6_entries"],
        *backend.ip_mapping(&ip("fdfd:733b:dc3:220b::2")).unwrap()
    );
    assert_eq!(
        vec!["podman_v6_entries"],
        *backend.ip_mapping(&ip("10.89.0.3")).unwrap()
    );
}

#[test]
fn test_generated_name_mappings_in_backend() {
    let (backend, listen_ip_v4, listen_ip_v6) = load(podman_v6_dir());
    assert!(listen_addresses(&listen_ip_v6, "podman_v6_entries").is_some());
    assert!(listen_addresses(&listen_ip_v4, "podman_v6_entries").is_some());
    let net = "podman_v6_entries";
    assert!(backend.name_mapping(net, "7b46c7ad93fc").is_some());
    assert!(backend.name_mapping(net, "88dde8a24897").is_some());
    assert!(backend.name_mapping(net, "test1").is_some());
    assert!(backend.name_mapping(net, "test2").is_some());
    assert_eq!(ip("10.89.0.3"), backend.name_mapping(net, "test2").unwrap()[0]);
    assert_eq!(ip("fdfd:733b:dc3:220b::3"), backend.name_mapping(net, "test2").unwrap()[1]);
    assert_eq!(ip("10.89.0.2"), backend.name_mapping(net, "test1").unwrap()[0]);
    assert_eq!(ip("fdfd:733b:dc3:220b::2"), backend.name_mapping(net, "test1").unwrap()[1]);
    assert_eq!(ip("10.89.0.2"), backend.name_mapping(net, "7b46c7ad93fc").unwrap()[0]);
    assert_eq!(ip("fdfd:733b:dc3:220b::2"), backend.name_mapping(net, "7b46c7ad93fc").unwrap()[1]);
    assert_eq!(ip("10.89.0.3"), backend.name_mapping(net, "88dde8a24897").unwrap()[0]);
    assert_eq!(ip("fdfd:733b:dc3:220b::3"), backend.name_mapping(net, "88dde8a24897").unwrap()[1]);
}

#[test]
fn test_generated_reverse_mappings_in_backend() {
    let (backend, listen_ip_v4, listen_ip_v6) = load(podman_v6_dir());
    assert!(listen_addresses(&listen_ip_v6, "podman_v6_entries").is_some());
    assert!(listen_addresses(&listen_ip_v4, "podman_v6_entries").is_some());
    let net = "podman_v6_entries";
    assert!(backend.reverse_mapping(net, &ip("10.89.0.3")).is_some());
    assert!(backend.reverse_mapping(net, &ip("10.89.0.2")).is_some());
    assert!(backend.reverse_mapping(net, &ip("fdfd:733b:dc3:220b::2")).is_some());
    assert!(backend.reverse_mapping(net, &ip("fdfd:733b:dc3:220b::3")).is_some());
}

#[test]
fn test_parse_multiple_ipv4_ipv6_addresses() {
    let (backend, listen_ip_v4, listen_ip_v6) = load(podman_v6_dir());
    let v4: Vec<IpAddress> = listen_addresses(&listen_ip_v4, "podman_v6_entries_proper")
        .unwrap()
        .iter()
        .map(|a| IpAddress::V4(*a))
        .collect();
    assert_eq!(v4, vec![ip("10.0.0.1"), ip("10.0.1.1")]);
    let v6: Vec<IpAddress> = listen_addresses(&listen_ip_v6, "podman_v6_entries_proper")
        .unwrap()
        .iter()
        .map(|a| IpAddress::V6(*a))
        .collect();
    assert_eq!(v6, vec![ip("fdfd::1"), ip("fddd::1")]);
    let ip_vec = expect_success(backend.lookup(&ip("10.0.0.2"), "testmulti1"));
    assert_eq!(
        ip_vec,
        vec![ip("10.0.0.2"), ip("10.0.1.2"), ip("fdfd::2"), ip("fddd::2")]
    );
    let ip_vec = expect_success(backend.lookup(&ip("10.0.0.2"), "testmulti2"));
    assert_eq!(
        ip_vec,
        vec![ip("10.0.0.3"), ip("10.0.1.3"), ip("fdfd::3"), ip("fddd::3")]
    );
}
