use vapx_scan::discovery::mdns::{
    build_mdns_query, config as mdns_config, encode_dns_name, markers_in_text, mdns_devices,
    parse_mdns_response,
};
use vapx_scan::discovery::onvif::{
    config as onvif_config, extract_onvif_markers, extract_xaddrs, onvif_devices, PROBE_MESSAGE,
};
use vapx_scan::discovery::ssdp::{
    config as ssdp_config, m_search_request, parse_response, parse_response_text, ssdp_devices,
    ssdp_mx,
};
use vapx_scan::discovery::{multicast_iface_ips, send_step, Datagram, SendStep};
use vapx_scan::netutil::{Interface, V4Addr};

fn addr4(a: u8, b: u8, c: u8, d: u8) -> u32 {
    u32::from_be_bytes([a, b, c, d])
}

fn mdns_answer(payload: &[u8]) -> Vec<u8> {
    let mut data = vec![0u8; 12];
    data[2] = 0x84;
    data.extend_from_slice(payload);
    data
}

#[test]
fn encode_name_wire_format() {
    let buf = encode_dns_name("_axis-video._tcp.local").unwrap();
    assert_eq!(buf[0], 11);
    assert_eq!(&buf[1..12], b"_axis-video");
    assert_eq!(*buf.last().unwrap(), 0x00);
}

#[test]
fn query_packet_has_header_and_question() {
    let pkt = build_mdns_query("_axis-nvr._tcp.local").unwrap();
    assert_eq!(&pkt[0..2], &[0x00, 0x00]);
    assert_eq!(&pkt[4..6], &[0x00, 0x01]);
    assert_eq!(&pkt[pkt.len() - 4..], &[0x00, 0x0c, 0x00, 0x01]);
}

#[test]
fn parse_response_requires_qr_bit() {
    let mut data = vec![0u8; 12];
    data[2] = 0x84;
    data.extend_from_slice(b"_axis-video._tcp.local");
    let m = parse_mdns_response(&data);
    assert_eq!(m, vec!["mdns:axis-video".to_string()]);
}

#[test]
fn parse_response_rejects_query() {
    let mut data = vec![0u8; 12];
    data.extend_from_slice(b"_axis-video");
    assert!(parse_mdns_response(&data).is_empty());
}

#[test]
fn markers_detect_axis_and_nvt() {
    let body = "<probe>AXIS something NetworkVideoTransmitter</probe>";
    let m = extract_onvif_markers(body);
    assert!(m.contains(&"onvif:AXIS".to_string()));
    assert!(m.contains(&"onvif:NetworkVideoTransmitter".to_string()));
}

#[test]
fn xaddrs_extracted() {
    let body = "<d><XAddrs>http://192.168.1.10/onvif/device http://10.0.0.1/onvif</XAddrs></d>";
    let x = extract_xaddrs(body);
    assert_eq!(
        x,
        vec!["http://192.168.1.10/onvif/device", "http://10.0.0.1/onvif"]
    );
}

#[test]
fn xaddrs_absent() {
    assert!(extract_xaddrs("<d></d>").is_empty());
}

#[test]
fn parses_server_header() {
    let raw = b"HTTP/1.1 200 OK\r\nCACHE-CONTROL: max-age=1800\r\nSERVER: Linux/4.0 UPnP/1.0 AXIS/1.0\r\n\r\n";
    let (headers, server) = parse_response(raw).unwrap();
    assert_eq!(server, "Linux/4.0 UPnP/1.0 AXIS/1.0");
    assert!(headers
        .iter()
        .any(|(k, _)| k.eq_ignore_ascii_case("cache-control")));
}

#[test]
fn rejects_non_http() {
    let raw = b"NOTIFY * HTTP/1.1\r\nHOST: 239.255.255.250:1900\r\n\r\n";
    assert!(parse_response(raw).is_none());
}

#[test]
fn server_case_insensitive() {
    let raw = b"HTTP/1.1 200 OK\r\nServer: AxisThing\r\n\r\n";
    let (_, server) = parse_response(raw).unwrap();
    assert_eq!(server, "AxisThing");
}

// ---------------------------------------------------------------------------

#[test]
fn encode_name_strips_one_trailing_dot() {
    let a = encode_dns_name("a.bc.").unwrap();
    assert_eq!(a, vec![1, b'a', 2, b'b', b'c', 0]);
    assert_eq!(encode_dns_name("a.bc").unwrap(), a);
}

#[test]
fn encode_name_refuses_empty_and_long_labels() {
    assert!(encode_dns_name("a..b").is_none());
    assert!(encode_dns_name("").is_none());
    assert!(encode_dns_name(".").is_none());
    let long = "x".repeat(64);
    assert!(encode_dns_name(&long).is_none());
    let ok = "x".repeat(63);
    assert_eq!(encode_dns_name(&ok).unwrap().len(), 65);
}

#[test]
fn query_packet_exact_bytes() {
    let pkt = build_mdns_query("a.b").unwrap();
    assert_eq!(
        pkt,
        vec![0, 0, 0, 0, 0, 1, 0, 0, 0, 0, 0, 0, 1, b'a', 1, b'b', 0, 0x00, 0x0c, 0x00, 0x01]
    );
    assert!(build_mdns_query("a..b").is_none());
}

#[test]
fn mdns_markers_for_both_services_and_plain_axis() {
    let m = parse_mdns_response(&mdns_answer(b"_AXIS-VIDEO and _axis-nvr"));
    assert_eq!(m, vec!["mdns:axis-video".to_string(), "mdns:axis-nvr".to_string()]);
    let p = parse_mdns_response(&mdns_answer(b"some Axis host"));
    assert_eq!(p, vec!["mdns:axis".to_string()]);
    assert!(parse_mdns_response(&mdns_answer(b"printer")).is_empty());
    assert!(parse_mdns_response(&[0x00, 0x00, 0x84]).is_empty());
}

#[test]
fn mdns_devices_unite_markers_per_address() {
    let dgs = vec![
        Datagram { src: addr4(10, 0, 0, 9), data: mdns_answer(b"_axis-nvr") },
        Datagram { src: addr4(10, 0, 0, 2), data: mdns_answer(b"_axis-video") },
        Datagram { src: addr4(10, 0, 0, 9), data: mdns_answer(b"_axis-video") },
        Datagram { src: addr4(10, 0, 0, 5), data: mdns_answer(b"nothing here") },
    ];
    let ds = mdns_devices(&dgs);
    assert_eq!(ds.len(), 2);
    assert_eq!(ds[0].ip, addr4(10, 0, 0, 2));
    assert_eq!(ds[1].ip, addr4(10, 0, 0, 9));
    assert_eq!(
        ds[1].hints.body_markers,
        vec!["mdns:axis-nvr".to_string(), "mdns:axis-video".to_string()]
    );
    assert_eq!(ds[1].methods, vec!["mdns".to_string()]);
    assert_eq!(ds[1].url, "http://10.0.0.9/");
}

#[test]
fn onvif_markers_are_case_aware() {
    let m = extract_onvif_markers("made by axis, a networkvideotransmitter");
    assert_eq!(m, vec!["onvif:AXIS".to_string()]);
    assert!(extract_onvif_markers("plain").is_empty());
}

#[test]
fn xaddrs_lower_case_tags_and_unclosed() {
    let x = extract_xaddrs("<xaddrs> http://a/  http://b/\n</xaddrs>");
    assert_eq!(x, vec!["http://a/".to_string(), "http://b/".to_string()]);
    assert!(extract_xaddrs("<XAddrs>http://a/").is_empty());
    let mixed = extract_xaddrs("\u{130}<XADDRS>http://c/</XAddrs> <XAddrs>http://d/</XADDRS>");
    assert_eq!(mixed, vec!["http://d/".to_string()]);
    assert_eq!(extract_xaddrs("\u{1e9e}<xaddrs>http://\u{e9}/</xaddrs>"), vec!["http://\u{e9}/".to_string()]);
}

#[test]
fn onvif_devices_first_answer_wins() {
    let dgs = vec![
        Datagram { src: addr4(192, 168, 1, 20), data: b"AXIS NetworkVideoTransmitter".to_vec() },
        Datagram { src: addr4(192, 168, 1, 3), data: b"other".to_vec() },
        Datagram { src: addr4(192, 168, 1, 20), data: b"nothing".to_vec() },
    ];
    let ds = onvif_devices(&dgs);
    assert_eq!(ds.len(), 2);
    assert_eq!(ds[0].ip, addr4(192, 168, 1, 3));
    assert!(ds[0].hints.body_markers.is_empty());
    assert_eq!(ds[1].ip, addr4(192, 168, 1, 20));
    assert_eq!(
        ds[1].hints.body_markers,
        vec!["onvif:AXIS".to_string(), "onvif:NetworkVideoTransmitter".to_string()]
    );
    assert_eq!(ds[1].methods, vec!["onvif".to_string()]);
}

#[test]
fn m_search_request_exact_text() {
    let r = m_search_request(2);
    assert_eq!(
        String::from_utf8(r).unwrap(),
        "M-SEARCH * HTTP/1.1\r\nHOST: 239.255.255.250:1900\r\nMAN: \"ssdp:discover\"\r\nMX: 2\r\nST: ssdp:all\r\n\r\n"
    );
}

#[test]
fn ssdp_mx_is_clamped() {
    assert_eq!(ssdp_mx(0), 1);
    assert_eq!(ssdp_mx(2), 2);
    assert_eq!(ssdp_mx(10), 3);
}

#[test]
fn ssdp_headers_are_trimmed_and_stop_at_blank_line() {
    let raw = b"HTTP/1.1 200 OK\nST:  upnp:rootdevice \nno colon here\n\nSERVER: late\r\n";
    let (headers, server) = parse_response(raw).unwrap();
    assert_eq!(headers, vec![("ST".to_string(), "upnp:rootdevice".to_string())]);
    assert_eq!(server, "");
    assert!(parse_response(b"").is_none());
}

#[test]
fn ssdp_devices_first_response_per_address() {
    let dgs = vec![
        Datagram { src: addr4(10, 1, 1, 7), data: b"garbage".to_vec() },
        Datagram { src: addr4(10, 1, 1, 7), data: b"HTTP/1.1 200 OK\r\nServer: First\r\n\r\n".to_vec() },
        Datagram { src: addr4(10, 1, 1, 2), data: b"HTTP/1.1 200 OK\r\n\r\n".to_vec() },
        Datagram { src: addr4(10, 1, 1, 7), data: b"HTTP/1.1 200 OK\r\nServer: Second\r\n\r\n".to_vec() },
    ];
    let ds = ssdp_devices(&dgs);
    assert_eq!(ds.len(), 2);
    assert_eq!(ds[0].ip, addr4(10, 1, 1, 2));
    assert_eq!(ds[0].hints.ssdp_server, "");
    assert_eq!(ds[1].ip, addr4(10, 1, 1, 7));
    assert_eq!(ds[1].hints.ssdp_server, "First");
    assert_eq!(ds[1].methods, vec!["ssdp".to_string()]);
}

#[test]
fn discovery_configs() {
    let s = ssdp_config(7, true);
    assert_eq!(s.group_ip, addr4(239, 255, 255, 250));
    assert_eq!(s.group_port, 1900);
    assert_eq!(s.payloads, vec![m_search_request(3)]);
    assert_eq!((s.send_count, s.send_delay_ms, s.recv_buf, s.verbose), (3, 200, 4096, true));
    assert_eq!(s.tag, "ssdp");
    let o = onvif_config(false);
    assert_eq!(o.group_ip, addr4(239, 255, 255, 250));
    assert_eq!(o.group_port, 3702);
    assert_eq!(o.payloads, vec![PROBE_MESSAGE.as_bytes().to_vec()]);
    assert_eq!((o.send_count, o.recv_buf, o.tag), (2, 8192, "onvif"));
    let m = mdns_config(false);
    assert_eq!(m.group_ip, addr4(224, 0, 0, 251));
    assert_eq!(m.group_port, 5353);
    assert_eq!(
        m.payloads,
        vec![
            build_mdns_query("_axis-video._tcp.local").unwrap(),
            build_mdns_query("_axis-nvr._tcp.local").unwrap()
        ]
    );
    assert_eq!((m.send_count, m.recv_buf, m.tag), (2, 4096, "mdns"));
}

#[test]
fn send_schedule() {
    assert_eq!(send_step(0, 3, false), SendStep::SendThenWait);
    assert_eq!(send_step(1, 3, false), SendStep::SendThenWait);
    assert_eq!(send_step(2, 3, false), SendStep::Send);
    assert_eq!(send_step(3, 3, false), SendStep::Stop);
    assert_eq!(send_step(0, 3, true), SendStep::Stop);
    assert_eq!(send_step(0, 0, false), SendStep::Stop);
}

#[test]
fn multicast_addresses_skip_loopback_and_link_local() {
    let ifaces = vec![
        Interface { is_loopback: true, v4: Some(V4Addr { ip: addr4(127, 0, 0, 1), netmask: addr4(255, 0, 0, 0) }) },
        Interface { is_loopback: false, v4: None },
        Interface { is_loopback: false, v4: Some(V4Addr { ip: addr4(169, 254, 3, 4), netmask: addr4(255, 255, 0, 0) }) },
        Interface { is_loopback: false, v4: Some(V4Addr { ip: addr4(192, 168, 7, 2), netmask: addr4(255, 255, 255, 0) }) },
        Interface { is_loopback: false, v4: Some(V4Addr { ip: addr4(10, 0, 0, 1), netmask: addr4(255, 0, 0, 0) }) },
        Interface { is_loopback: false, v4: Some(V4Addr { ip: addr4(192, 168, 7, 2), netmask: addr4(255, 255, 0, 0) }) },
    ];
    assert_eq!(multicast_iface_ips(&ifaces), vec![addr4(192, 168, 7, 2), addr4(10, 0, 0, 1)]);
}

#[test]
fn decoded_ssdp_text_is_read_like_the_bytes() {
    let (headers, server) =
        parse_response_text("HTTP/1.1 200 OK\r\nSERVER: Linux/4.9 UPnP/1.0 \u{c5}xis\r\nST: upnp:rootdevice\r\n\r\n")
            .unwrap();
    assert_eq!(server, "Linux/4.9 UPnP/1.0 \u{c5}xis");
    assert_eq!(headers.len(), 2);
    assert!(parse_response_text("NOTIFY * HTTP/1.1\r\n\r\n").is_none());
    assert_eq!(parse_response(b"HTTP/1.1 200 OK\r\nServer: a\xffb\r\n").unwrap().1, "a\u{fffd}b");
}

#[test]
fn mdns_markers_in_lowered_text() {
    assert_eq!(markers_in_text("x _axis-video y _axis-nvr"), vec!["mdns:axis-video", "mdns:axis-nvr"]);
    assert_eq!(markers_in_text("my axis camera"), vec!["mdns:axis"]);
    assert!(markers_in_text("printer").is_empty());
    assert!(markers_in_text("_AXIS-VIDEO").is_empty());
}
