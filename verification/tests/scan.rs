use vapx_scan::ipv4::parse_subnet;
use vapx_scan::probe::HttpResult;
use vapx_scan::scan::{apply_https_preference, collect_scan, expand_cidr};
use vapx_scan::model::Device;

fn v4(a: u8, b: u8, c: u8, d: u8) -> u32 {
    u32::from_be_bytes([a, b, c, d])
}

fn net(s: &str) -> vapx_scan::ipv4::Ipv4Net {
    parse_subnet(s).unwrap()
}

fn answer(server: &str, title: &str, markers: &[&str]) -> HttpResult {
    HttpResult {
        server_header: server.to_string(),
        body_markers: markers.iter().map(|m| m.to_string()).collect(),
        title: title.to_string(),
        status_code: 200,
    }
}

#[test]
fn slash_24_skips_network_and_broadcast() {
    let ips = expand_cidr(net("192.168.1.0/24"));
    assert_eq!(ips.len(), 254);
    assert_eq!(ips[0], v4(192, 168, 1, 1));
    assert_eq!(ips[ips.len() - 1], v4(192, 168, 1, 254));
}

#[test]
fn slash_31_returns_both() {
    let ips = expand_cidr(net("10.0.0.4/31"));
    assert_eq!(ips, vec![v4(10, 0, 0, 4), v4(10, 0, 0, 5)]);
}

#[test]
fn slash_32_returns_single() {
    let ips = expand_cidr(net("10.0.0.5/32"));
    assert_eq!(ips, vec![v4(10, 0, 0, 5)]);
}

#[test]
fn slash_30_has_two_hosts() {
    let ips = expand_cidr(net("172.16.0.0/30"));
    assert_eq!(ips, vec![v4(172, 16, 0, 1), v4(172, 16, 0, 2)]);
}

// ---------------------------------------------------------------------------

#[test]
fn host_bits_of_the_address_are_ignored() {
    let ips = expand_cidr(net("192.168.1.77/30"));
    assert_eq!(ips, vec![v4(192, 168, 1, 77), v4(192, 168, 1, 78)]);
    let n = net("10.16.0.0/12");
    let ips = expand_cidr(n);
    assert_eq!(ips.len(), (1 << 20) - 2);
}

#[test]
fn subnet_text_is_read_with_ipnet() {
    let n = net("10.1.2.3/16");
    assert_eq!((n.addr, n.prefix_len), (v4(10, 1, 2, 3), 16));
    assert!(parse_subnet("10.1.2.3").is_err());
    assert!(parse_subnet("10.1.2.3/33").is_err());
    assert!(parse_subnet("garbage").is_err());
    assert!(!parse_subnet("nope/8").unwrap_err().is_empty());
    let z = net("010.001.2.3/08");
    assert_eq!((z.addr, z.prefix_len), (v4(10, 1, 2, 3), 8));
    assert!(parse_subnet("1.2.3.4/033").is_err());
    assert!(parse_subnet("1.2.3.1234/8").is_err());
    assert!(parse_subnet("1.2.3.256/8").is_err());
    assert!(parse_subnet("1.2.3.4/8/9").is_err());
    assert!(parse_subnet("1.2.3.4/").is_err());
}

#[test]
fn findings_become_one_device_per_address() {
    let hits = vec![
        (v4(10, 0, 0, 9), 80, answer("AxisServer", "", &["AXIS"])),
        (v4(10, 0, 0, 2), 443, answer("", "Cam", &[])),
        (v4(10, 0, 0, 9), 443, answer("Other", "AXIS Q1615", &["axis-cgi", "AXIS"])),
        (v4(10, 0, 0, 9), 80, answer("", "", &[])),
    ];
    let ds = collect_scan(hits, false);
    assert_eq!(ds.len(), 2);
    assert_eq!(ds[0].ip, v4(10, 0, 0, 2));
    assert_eq!(ds[0].url, "http://10.0.0.2/");
    assert_eq!(ds[0].hints.device_name, "Cam");
    let d = &ds[1];
    assert_eq!(d.ip, v4(10, 0, 0, 9));
    assert_eq!(d.open_ports, vec![80, 443]);
    assert_eq!(d.hints.server_header, "AxisServer");
    assert_eq!(d.hints.device_name, "AXIS Q1615");
    assert_eq!(d.hints.body_markers, vec!["AXIS".to_string(), "axis-cgi".to_string()]);
    assert_eq!(d.methods, vec!["subnet".to_string()]);
}

#[test]
fn https_preference_for_port_443() {
    let hits = vec![
        (v4(10, 0, 0, 2), 443, answer("", "", &[])),
        (v4(10, 0, 0, 3), 80, answer("", "", &[])),
    ];
    let ds = collect_scan(hits, true);
    assert_eq!(ds[0].url, "https://10.0.0.2/");
    assert_eq!(ds[1].url, "http://10.0.0.3/");
    let mut v = vec![Device::new(5, "x")];
    v[0].open_ports = vec![80, 443];
    apply_https_preference(&mut v);
    assert_eq!(v[0].url, "https://0.0.0.5/");
    assert!(collect_scan(Vec::new(), true).is_empty());
}
