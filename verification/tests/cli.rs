use vapx_scan::cli::{detected_only, parse_ports, worker_count};
use vapx_scan::model::{Confidence, Device};

#[test]
fn parse_ports_dedup_sort() {
    assert_eq!(parse_ports("80,443").unwrap(), vec![80, 443]);
    assert_eq!(parse_ports("443,80,80").unwrap(), vec![80, 443]);
    assert_eq!(parse_ports(" 8080 , 80 ").unwrap(), vec![80, 8080]);
}

#[test]
fn parse_ports_rejects_invalid() {
    assert!(parse_ports("0").is_err());
    assert!(parse_ports("70000").is_err());
    assert!(parse_ports("abc").is_err());
    assert!(parse_ports("").is_err());
}

// ---------------------------------------------------------------------------

#[test]
fn parse_ports_error_texts() {
    assert_eq!(parse_ports("0").unwrap_err(), "invalid port: \"0\"");
    assert_eq!(parse_ports("80, abc ,90").unwrap_err(), "invalid port: \"abc\"");
    assert_eq!(parse_ports("4294967296").unwrap_err(), "invalid port: \"4294967296\"");
    assert_eq!(parse_ports("-1").unwrap_err(), "invalid port: \"-1\"");
    assert_eq!(parse_ports("").unwrap_err(), "no valid ports specified");
    assert_eq!(parse_ports(" , ,").unwrap_err(), "no valid ports specified");
}

#[test]
fn parse_ports_accepts_sign_and_leading_zeros() {
    assert_eq!(parse_ports("+80,0443,65535,,1").unwrap(), vec![1, 80, 443, 65535]);
}

#[test]
fn parse_ports_result_is_strictly_ascending() {
    let v = parse_ports("9,3,7,3,9,1,5").unwrap();
    assert_eq!(v, vec![1, 3, 5, 7, 9]);
    assert!(v.windows(2).all(|w| w[0] < w[1]));
}

#[test]
fn workers_are_clamped() {
    assert_eq!(worker_count(0), 1);
    assert_eq!(worker_count(64), 64);
    assert_eq!(worker_count(5000), 1024);
}

#[test]
fn only_detected_devices_are_kept() {
    let mut a = Device::new(1, "x");
    a.confidence = Confidence::Low;
    let b = Device::new(2, "x");
    let mut c = Device::new(3, "x");
    c.confidence = Confidence::High;
    let kept = detected_only(vec![a, b, c]);
    let ips: Vec<u32> = kept.iter().map(|d| d.ip).collect();
    assert_eq!(ips, vec![1, 3]);
}
