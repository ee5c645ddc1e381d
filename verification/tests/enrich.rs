use vapx_scan::enrich::{probe_jobs, probe_step, ProbeAction, ProbeEvent};
use vapx_scan::model::Device;
use vapx_scan::probe::{axis_cgi_from, device_info_from};

#[test]
fn jobs_cover_open_ports_or_port_80() {
    let mut a = Device::new(1, "x");
    a.open_ports = vec![443, 8080];
    let b = Device::new(2, "x");
    assert_eq!(probe_jobs(&[a, b]), vec![(0, 443), (0, 8080), (1, 80)]);
    assert!(probe_jobs(&[]).is_empty());
}

#[test]
fn device_info_answer_fills_and_ends() {
    let mut d = Device::new(1, "x");
    d.hints.firmware = "old".into();
    assert_eq!(probe_step(&mut d, ProbeEvent::Start), ProbeAction::AskDeviceInfo);
    let info = device_info_from(
        200,
        Some(br#"{"ProdFullName":"AXIS M3045","ProdNbr":"M3045","SerialNumber":"ACCC","Version":"10.1"}"#),
    );
    assert_eq!(probe_step(&mut d, ProbeEvent::DeviceInfo(info)), ProbeAction::Done);
    assert!(d.hints.axis_cgi);
    assert_eq!(d.hints.device_name, "AXIS M3045");
    assert_eq!(d.hints.prod_nbr, "M3045");
    assert_eq!(d.hints.serial_number, "ACCC");
    assert_eq!(d.hints.firmware, "old");
    assert_eq!(d.hints.prod_type, "");
}

#[test]
fn legacy_device_gets_flag_then_title() {
    let mut d = Device::new(1, "x");
    let none = device_info_from(404, None);
    assert_eq!(probe_step(&mut d, ProbeEvent::DeviceInfo(none)), ProbeAction::AskAxisCgi);
    assert!(!d.hints.axis_cgi);
    let cgi = axis_cgi_from(401, None);
    assert_eq!(probe_step(&mut d, ProbeEvent::AxisCgi(cgi)), ProbeAction::AskWebappTitle);
    assert!(d.hints.axis_cgi);
    assert_eq!(
        probe_step(&mut d, ProbeEvent::WebappTitle("AXIS P1375".to_string())),
        ProbeAction::Done
    );
    assert_eq!(d.hints.device_name, "AXIS P1375");
    assert_eq!(probe_step(&mut d, ProbeEvent::WebappTitle("Other".to_string())), ProbeAction::Done);
    assert_eq!(d.hints.device_name, "AXIS P1375");
}

#[test]
fn named_device_skips_the_title() {
    let mut d = Device::new(1, "x");
    d.hints.device_name = "known".into();
    let cgi = axis_cgi_from(404, None);
    assert_eq!(probe_step(&mut d, ProbeEvent::AxisCgi(cgi)), ProbeAction::Done);
    assert!(!d.hints.axis_cgi);
}

#[test]
fn interleaved_jobs_fill_from_the_first_answer() {
    let mut d = Device::new(1, "x");
    d.hints.prod_type = "set before".into();
    // Two probes of the same device (ports 80 and 443) interleave.
    assert_eq!(probe_step(&mut d, ProbeEvent::Start), ProbeAction::AskDeviceInfo);
    assert_eq!(probe_step(&mut d, ProbeEvent::Start), ProbeAction::AskDeviceInfo);
    let legacy = device_info_from(404, None);
    assert_eq!(probe_step(&mut d, ProbeEvent::DeviceInfo(legacy)), ProbeAction::AskAxisCgi);
    let rich = device_info_from(
        200,
        Some(br#"{"ProdShortName":"AXIS Q1615","ProdType":"Camera","Version":"12.6"}"#),
    );
    assert_eq!(probe_step(&mut d, ProbeEvent::DeviceInfo(rich)), ProbeAction::Done);
    assert!(d.hints.axis_cgi);
    let cgi = axis_cgi_from(404, None);
    assert_eq!(probe_step(&mut d, ProbeEvent::AxisCgi(cgi)), ProbeAction::AskWebappTitle);
    assert!(d.hints.axis_cgi);
    assert_eq!(probe_step(&mut d, ProbeEvent::WebappTitle("From page".to_string())), ProbeAction::Done);
    assert_eq!(d.hints.device_name, "From page");
    assert_eq!(d.hints.prod_type, "set before");
    assert_eq!(d.hints.firmware, "12.6");
}
