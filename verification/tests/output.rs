use vapx_scan::model::Device;
use vapx_scan::output::{chars, pad_right, plain};

fn dev(ip: u32) -> Device {
    Device::new(ip, "test")
}

#[test]
fn empty_produces_no_output() {
    let buf = plain(&[]);
    assert!(buf.is_empty());
}

#[test]
fn plain_includes_url_header() {
    let s = plain(&[dev(u32::from_be_bytes([192, 168, 1, 10]))]);
    assert!(s.contains("URL"));
    assert!(s.contains("http://192.168.1.10/"));
}

// ---------------------------------------------------------------------------

#[test]
fn url_only_table() {
    let s = plain(&[dev(u32::from_be_bytes([10, 0, 0, 1]))]);
    let rule = "\u{2500}".repeat(16);
    assert_eq!(s, format!("{:<16}\n{}\nhttp://10.0.0.1/\n", "URL", rule));
}

#[test]
fn full_table_with_dashes_and_mac_fallback() {
    let mut a = dev(u32::from_be_bytes([192, 168, 7, 10]));
    a.hints.device_name = "AXIS Q1615".into();
    a.hints.firmware = "12.6.104".into();
    a.hints.serial_number = "B8A44F230E2A".into();
    a.hints.mac = "ignored".into();
    let mut b = dev(u32::from_be_bytes([192, 168, 7, 155]));
    b.hints.device_name = "AXIS IO Manager".into();
    b.hints.mac = "ac:cc:8e:d1:36:8b".into();
    let s = plain(&[a, b]);
    let r = |n: usize| "\u{2500}".repeat(n);
    let expected = format!(
        "{:<21}  {:<15}  {:<8}  {:<17}\n{}  {}  {}  {}\n{}\n{}\n",
        "URL",
        "PRODUCT",
        "FIRMWARE",
        "SERIAL",
        r(21),
        r(15),
        r(8),
        r(17),
        format!("{:<21}  {:<15}  {:<8}  {:<17}", "http://192.168.7.10/", "AXIS Q1615", "12.6.104", "B8A44F230E2A").trim_end(),
        format!("{:<21}  {:<15}  {:<8}  {:<17}", "http://192.168.7.155/", "AXIS IO Manager", "\u{2014}", "ac:cc:8e:d1:36:8b").trim_end(),
    );
    assert_eq!(s, expected);
}

#[test]
fn widths_count_characters() {
    assert_eq!(chars("h\u{e9}llo"), 5);
    assert_eq!(pad_right("\u{e9}", 3), "\u{e9}  ");
    assert_eq!(pad_right("long", 2), "long");
    assert_eq!(pad_right("", 0), "");
}

#[test]
fn columns_start_at_the_same_offset_in_every_line() {
    let mut a = dev(u32::from_be_bytes([10, 1, 2, 3]));
    a.hints.firmware = "9.80.1".into();
    let mut b = dev(u32::from_be_bytes([10, 1, 2, 200]));
    b.hints.mac = "00:40:8c:12:34:56".into();
    let s = plain(&[a, b]);
    let lines: Vec<&str> = s.lines().collect();
    assert_eq!(lines.len(), 4);
    let col = |line: &str, what: &str| line.find(what).map(|b| line[..b].chars().count());
    assert_eq!(col(lines[0], "FIRMWARE"), Some(20));
    assert_eq!(col(lines[0], "SERIAL"), Some(30));
    assert_eq!(col(lines[0], "PRODUCT"), None);
    assert_eq!(col(lines[2], "9.80.1"), Some(20));
    assert_eq!(col(lines[3], "\u{2014}"), Some(20));
    assert_eq!(col(lines[3], "00:40:8c"), Some(30));
    assert_eq!(lines[1].chars().count(), 47);
    assert_eq!(lines[1].chars().nth(18), Some(' '));
    assert!(lines[2..].iter().all(|l| !l.ends_with(' ')));
    assert!(lines[0].ends_with(' '));
}
