use vapx_scan::ipv4::{ipv4_to_string, parse_ipv4};
use vapx_scan::model::{merge_devices, sort_devices, unique_ints, unique_strings, Confidence, Device, Hints};

fn ip_of(s: &str) -> u32 {
    let cs: Vec<char> = s.chars().collect();
    parse_ipv4(&cs).unwrap()
}

#[test]
fn merge_dedups_by_ip() {
    let a = Device::new(ip_of("192.168.1.10"), "ssdp");
    let mut b = Device::new(ip_of("192.168.1.10"), "onvif");
    b.open_ports = vec![80];
    let merged = merge_devices(vec![vec![a], vec![b]]);
    assert_eq!(merged.len(), 1);
    assert_eq!(merged[0].methods, vec!["ssdp", "onvif"]);
    assert_eq!(merged[0].open_ports, vec![80]);
}

#[test]
fn sorts_by_ip() {
    let mut devices = vec![
        Device::new(ip_of("192.168.1.20"), "x"),
        Device::new(ip_of("192.168.1.3"), "x"),
        Device::new(ip_of("10.0.0.1"), "x"),
    ];
    sort_devices(&mut devices);
    let ips: Vec<u32> = devices.iter().map(|d| d.ip).collect();
    assert_eq!(
        ips,
        vec![
            u32::from_be_bytes([10, 0, 0, 1]),
            u32::from_be_bytes([192, 168, 1, 3]),
            u32::from_be_bytes([192, 168, 1, 20]),
        ]
    );
}

#[test]
fn merge_preserves_hints() {
    let mut a = Device::new(ip_of("10.0.0.5"), "ssdp");
    a.hints.ssdp_server = "AXIS".into();
    let mut b = Device::new(ip_of("10.0.0.5"), "subnet");
    b.hints.axis_cgi = true;
    b.hints.firmware = "12.6".into();
    let merged = merge_devices(vec![vec![a], vec![b]]);
    assert_eq!(merged.len(), 1);
    assert_eq!(merged[0].hints.ssdp_server, "AXIS");
    assert!(merged[0].hints.axis_cgi);
    assert_eq!(merged[0].hints.firmware, "12.6");
}

// ---------------------------------------------------------------------------

#[test]
fn new_device_defaults() {
    let d = Device::new(ip_of("192.168.7.10"), "mdns");
    assert_eq!(d.url, "http://192.168.7.10/");
    assert_eq!(d.methods, vec!["mdns".to_string()]);
    assert!(d.open_ports.is_empty());
    assert_eq!(d.confidence, Confidence::NoEvidence);
    assert_eq!(Confidence::default(), Confidence::NoEvidence);
    let h = Hints::default();
    assert!(h.mac.is_empty() && !h.axis_cgi && h.body_markers.is_empty());
}

#[test]
fn merge_keeps_first_values_and_sorts_ports() {
    let mut a = Device::new(7, "ssdp");
    a.hints.device_name = "first".into();
    a.open_ports = vec![443];
    a.url = String::new();
    let mut b = Device::new(7, "subnet");
    b.hints.device_name = "second".into();
    b.hints.mac = "aa:bb".into();
    b.open_ports = vec![80, 443];
    b.url = "https://0.0.0.7/".into();
    let c = Device::new(3, "mdns");
    let merged = merge_devices(vec![vec![a, c], vec![b]]);
    assert_eq!(merged.len(), 2);
    assert_eq!(merged[0].ip, 3);
    let m = &merged[1];
    assert_eq!(m.hints.device_name, "first");
    assert_eq!(m.hints.mac, "aa:bb");
    assert_eq!(m.open_ports, vec![80, 443]);
    assert_eq!(m.methods, vec!["ssdp".to_string(), "subnet".to_string()]);
    assert_eq!(m.url, "https://0.0.0.7/");
}

#[test]
fn merged_list_is_strictly_ascending() {
    let lists = vec![
        vec![Device::new(9, "a"), Device::new(2, "a")],
        vec![Device::new(5, "b"), Device::new(9, "b"), Device::new(2, "b")],
        vec![],
    ];
    let merged = merge_devices(lists);
    let ips: Vec<u32> = merged.iter().map(|d| d.ip).collect();
    assert_eq!(ips, vec![2, 5, 9]);
    assert_eq!(merged[2].methods, vec!["a".to_string(), "b".to_string()]);
}

#[test]
fn sort_is_stable() {
    let mut d = vec![Device::new(4, "first"), Device::new(1, "x"), Device::new(4, "second")];
    sort_devices(&mut d);
    assert_eq!(d[0].ip, 1);
    assert_eq!(d[1].methods, vec!["first".to_string()]);
    assert_eq!(d[2].methods, vec!["second".to_string()]);
}

#[test]
fn unions_of_lists() {
    let a = vec!["x".to_string(), "y".to_string()];
    let b = vec!["y".to_string(), "z".to_string(), "z".to_string()];
    assert_eq!(unique_strings(&a, &b), vec!["x", "y", "z"]);
    assert_eq!(unique_ints(&[443, 80], &[8080, 80, 22]), vec![22, 80, 443, 8080]);
}

#[test]
fn address_text_round_trip() {
    for ip in [0u32, 1, 0x7f000001, 0xc0a8010a, u32::MAX] {
        let s = ipv4_to_string(ip);
        assert_eq!(ip_of(&s), ip);
    }
    assert_eq!(ipv4_to_string(0xc0a8010a), "192.168.1.10");
    let bad: Vec<char> = "192.168.01.1".chars().collect();
    assert_eq!(parse_ipv4(&bad), None);
}
