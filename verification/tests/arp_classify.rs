use vapx_scan::arp::{parse, Table};
use vapx_scan::classify::{classify, contains_ci, is_axis_oui};
use vapx_scan::model::{Confidence, Device};

fn v4(a: u8, b: u8, c: u8, d: u8) -> u32 {
    u32::from_be_bytes([a, b, c, d])
}

fn dev(ip: u32) -> Device {
    Device::new(ip, "test")
}

#[test]
fn parses_valid_entries() {
    let data =
        "IP address       HW type     Flags       HW address            Mask     Device\n\
                192.168.1.1      0x1         0x2         aa:bb:cc:dd:ee:ff     *        eth0\n\
                192.168.1.2      0x1         0x2         B8:A4:4F:11:22:33     *        eth0\n";
    let t = parse(data);
    assert_eq!(t.len(), 2);
    assert_eq!(t[&v4(192, 168, 1, 1)], "aa:bb:cc:dd:ee:ff");
    assert_eq!(t[&v4(192, 168, 1, 2)], "b8:a4:4f:11:22:33");
}

#[test]
fn skips_incomplete_entries() {
    let data =
        "IP address       HW type     Flags       HW address            Mask     Device\n\
                192.168.1.5      0x1         0x0         00:00:00:00:00:00     *        eth0\n";
    let t = parse(data);
    assert!(t.is_empty());
}

#[test]
fn skips_malformed_lines() {
    let data = "header\n192.168.1.1 0x1\ngarbage\n";
    let t = parse(data);
    assert!(t.is_empty());
}

#[test]
fn axis_cgi_scores_high_alone_with_one_more() {
    let mut d = dev(v4(10, 0, 0, 1));
    d.hints.axis_cgi = true;
    d.hints.body_markers = vec!["AXIS".into()];
    let mut v = vec![d];
    classify(&mut v, &Table::new());
    assert_eq!(v[0].confidence, Confidence::High);
}

#[test]
fn single_hint_is_low() {
    let mut d = dev(v4(10, 0, 0, 2));
    d.hints.ssdp_server = "AXIS/1.0".into();
    let mut v = vec![d];
    classify(&mut v, &Table::new());
    assert_eq!(v[0].confidence, Confidence::Low);
}

#[test]
fn no_hints_is_none() {
    let mut v = vec![dev(v4(10, 0, 0, 3))];
    classify(&mut v, &Table::new());
    assert_eq!(v[0].confidence, Confidence::NoEvidence);
}

#[test]
fn oui_from_arp_counts() {
    let mut table = Table::new();
    table.insert(v4(10, 0, 0, 4), "b8:a4:4f:00:11:22".into());
    let mut v = vec![dev(v4(10, 0, 0, 4))];
    classify(&mut v, &table);
    assert_eq!(v[0].confidence, Confidence::Low);
    assert_eq!(v[0].hints.mac, "b8:a4:4f:00:11:22");
}

#[test]
fn two_hints_medium() {
    let mut d = dev(v4(10, 0, 0, 5));
    d.hints.ssdp_server = "AXIS".into();
    d.hints.server_header = "Axis/2".into();
    let mut v = vec![d];
    classify(&mut v, &Table::new());
    assert_eq!(v[0].confidence, Confidence::Medium);
}

// ---------------------------------------------------------------------------

#[test]
fn arp_header_only_and_empty() {
    assert!(parse("").is_empty());
    assert!(parse("IP address HW type Flags HW address Mask Device\n").is_empty());
}

#[test]
fn arp_later_line_wins_and_bad_address_skipped() {
    let data = "hdr\n10.0.0.1 0x1 0x2 AA:AA:AA:AA:AA:AA * eth0\n\
                10.0.0.300 0x1 0x2 bb:bb:bb:bb:bb:bb * eth0\n\
                10.0.0.1 0x1 0x2 cc:cc:cc:cc:cc:cc * eth1\n";
    let t = parse(data);
    assert_eq!(t.len(), 1);
    assert_eq!(t[&v4(10, 0, 0, 1)], "cc:cc:cc:cc:cc:cc");
}

#[test]
fn case_insensitive_helpers() {
    assert!(contains_ci("Linux UPnP AXIS/1.0", "axis"));
    assert!(contains_ci("anything", ""));
    assert!(!contains_ci("Hikvision", "axis"));
    assert!(is_axis_oui("AC:CC:8E:D1:36:8B"));
    assert!(is_axis_oui("00:40:8c:00:00:01"));
    assert!(!is_axis_oui("aa:bb:cc:dd:ee:ff"));
    assert!(!is_axis_oui(""));
}

#[test]
fn all_signals_add_up() {
    let mut table = Table::new();
    table.insert(7, "ac:cc:8e:00:00:01".into());
    let mut d = dev(7);
    d.hints.ssdp_server = "axis".into();
    d.hints.server_header = "AXIS".into();
    d.hints.body_markers = vec!["axis-cgi".into()];
    d.hints.axis_cgi = true;
    let mut known = dev(8);
    known.hints.mac = "00:00:00:00:00:01".into();
    table.insert(8, "ac:cc:8e:00:00:02".into());
    let mut v = vec![d, known];
    classify(&mut v, &table);
    assert_eq!(v[0].confidence, Confidence::High);
    assert_eq!(v[0].hints.mac, "ac:cc:8e:00:00:01");
    // A device that already has a hardware address keeps it.
    assert_eq!(v[1].hints.mac, "00:00:00:00:00:01");
    assert_eq!(v[1].confidence, Confidence::NoEvidence);
}

#[test]
fn classifying_twice_changes_nothing() {
    let mut table = Table::new();
    table.insert(4, "b8:a4:4f:00:11:22".into());
    let mut d = dev(4);
    d.hints.server_header = "AXIS".into();
    let mut v = vec![d, dev(5)];
    classify(&mut v, &table);
    let first: Vec<(Confidence, String)> = v.iter().map(|d| (d.confidence, d.hints.mac.clone())).collect();
    classify(&mut v, &table);
    let second: Vec<(Confidence, String)> = v.iter().map(|d| (d.confidence, d.hints.mac.clone())).collect();
    assert_eq!(first, second);
    assert_eq!(first[0], (Confidence::Medium, "b8:a4:4f:00:11:22".to_string()));
}
