use vapx_scan::probe::{
    after_head, axis_cgi_from, axis_cgi_from_text, body_text, device_info_from, device_info_url, extract_json_field,
    extract_title, fallback_result, http_result_from, HeadStep, root_url, scan_markers,
    scheme_for, webapp_title_from,
    webapp_url, AxisCgiResult, HttpResult, MAX_BODY_READ,
};

#[test]
fn extract_title_basic() {
    assert_eq!(
        extract_title("<html><title>AXIS P1375</title>"),
        "AXIS P1375"
    );
}

#[test]
fn extract_title_skips_generic() {
    assert_eq!(extract_title("<title>Index page</title>"), "");
    assert_eq!(extract_title("<title>  </title>"), "");
    assert_eq!(extract_title("no title here"), "");
}

#[test]
fn scan_markers_finds_axis() {
    let m = scan_markers("<html>AXIS Communications axis-cgi</html>");
    assert!(m.contains(&"AXIS".to_string()));
    assert!(m.contains(&"axis-cgi".to_string()));
}

#[test]
fn json_field_extraction() {
    let body = r#"{"data":{"ProdNbr": "Q1615 Mk III","Version":"12.6.104"}}"#;
    assert_eq!(extract_json_field(body, "ProdNbr"), "Q1615 Mk III");
    assert_eq!(extract_json_field(body, "Version"), "12.6.104");
    assert_eq!(extract_json_field(body, "Missing"), "");
}

// ---------------------------------------------------------------------------

#[test]
fn title_is_found_case_insensitively_and_trimmed() {
    assert_eq!(extract_title("<TITLE>\n  Camera One \t</Title>"), "Camera One");
    assert_eq!(extract_title("<title>INDEX PAGE</title>"), "");
    assert_eq!(extract_title("<title>unclosed"), "");
}

#[test]
fn title_is_the_content_between_the_tags() {
    assert_eq!(extract_title("\u{130}<title>x</title>"), "x");
    assert_eq!(extract_title("\u{1e9e}<title>\u{e9}</title>"), "\u{e9}");
    assert_eq!(extract_title("<Title>caf\u{e9}</TITLE><title>second</title>"), "caf\u{e9}");
    assert_eq!(extract_title("<title>ok</title>"), "ok");
}

#[test]
fn markers_ignore_case_and_keep_their_order() {
    let m = scan_markers("axis communications");
    assert_eq!(m, vec!["AXIS".to_string(), "Axis Communications".to_string()]);
    assert!(scan_markers("nothing").is_empty());
}

#[test]
fn json_field_without_closing_quote() {
    assert_eq!(extract_json_field(r#"{"ProdNbr": "Q16"#, "ProdNbr"), "");
    assert_eq!(extract_json_field(r#"{"ProdNbr":"","x":"y"}"#, "ProdNbr"), "");
}

#[test]
fn urls_and_schemes() {
    assert_eq!(scheme_for(443), "https");
    assert_eq!(scheme_for(80), "http");
    assert_eq!(root_url("10.0.0.1", 8080), "http://10.0.0.1:8080/");
    assert_eq!(
        device_info_url("10.0.0.1", 443),
        "https://10.0.0.1:443/axis-cgi/basicdeviceinfo.cgi"
    );
    assert_eq!(webapp_url("h", 80), "http://h:80/webapp/index.shtml");
}

#[test]
fn body_is_cut_and_decoded_lossily() {
    let mut big = vec![b'a'; MAX_BODY_READ + 10];
    big[0] = 0xff;
    let t = body_text(&big);
    assert_eq!(t.chars().count(), MAX_BODY_READ);
    assert!(t.starts_with('\u{fffd}'));
    assert_eq!(body_text(b"abc"), "abc");
}

#[test]
fn http_results() {
    let head = http_result_from(405, "AxisTest".to_string(), None);
    assert_eq!(head.status_code, 405);
    assert_eq!(head.server_header, "AxisTest");
    assert!(head.body_markers.is_empty() && head.title.is_empty());
    assert!(matches!(after_head(Some(head)), HeadStep::AskGet));
    assert!(matches!(after_head(None), HeadStep::AskGet));
    let get = http_result_from(
        200,
        "AxisTest".to_string(),
        Some(b"<html><title>AXIS Test Cam</title>axis-cgi</html>"),
    );
    assert_eq!(get.title, "AXIS Test Cam");
    assert_eq!(get.body_markers, vec!["axis-cgi".to_string()]);
    let fb = fallback_result(None);
    assert_eq!(fb.status_code, 0);
    assert!(fb.server_header.is_empty());
    let kept = fallback_result(Some(get));
    assert_eq!(kept.title, "AXIS Test Cam");
    let redirect = HttpResult { server_header: "r".to_string(), body_markers: Vec::new(), title: String::new(), status_code: 302 };
    match after_head(Some(redirect)) {
        HeadStep::Done(r) => assert_eq!((r.status_code, r.server_header.as_str()), (302, "r")),
        HeadStep::AskGet => panic!("a 3xx HEAD answer is kept"),
    }
    let ok = http_result_from(200, String::new(), None);
    assert!(matches!(after_head(Some(ok)), HeadStep::Done(_)));
    let server_error = http_result_from(500, String::new(), None);
    assert!(matches!(after_head(Some(server_error)), HeadStep::AskGet));
    let non_ascii = http_result_from(200, String::new(), Some("\u{1e9e}<title>\u{e9}</title>".as_bytes()));
    assert_eq!(non_ascii.title, "\u{e9}");
}

#[test]
fn device_info_answers() {
    let body = br#"{"apiVersion":"1.3","data":{"propertyList":{"ProdFullName":"AXIS Q1615 Mk III Network Camera","ProdShortName":"AXIS Q1615 Mk III","ProdNbr":"Q1615 Mk III","ProdType":"Network Camera","SerialNumber":"B8A44F230E2A","Version":"12.6.104"}}}"#;
    let info = device_info_from(200, Some(body));
    assert!(info.is_axis);
    assert_eq!(info.prod_full_name, "AXIS Q1615 Mk III Network Camera");
    assert_eq!(info.prod_short_name, "AXIS Q1615 Mk III");
    assert_eq!(info.prod_nbr, "Q1615 Mk III");
    assert_eq!(info.prod_type, "Network Camera");
    assert_eq!(info.serial_number, "B8A44F230E2A");
    assert_eq!(info.firmware, "12.6.104");
    let other = device_info_from(200, Some(br#"{"SerialNumber": "X1"}"#));
    assert!(!other.is_axis);
    assert_eq!(other.serial_number, "X1");
    let denied = device_info_from(401, Some(body));
    assert!(!denied.is_axis && denied.prod_nbr.is_empty());
    assert!(!device_info_from(200, None).is_axis);
}

#[test]
fn axis_cgi_answers() {
    assert_eq!(axis_cgi_from(401, None), AxisCgiResult { is_axis: true, status_code: 401 });
    assert_eq!(axis_cgi_from(404, None), AxisCgiResult { is_axis: false, status_code: 404 });
    assert_eq!(
        axis_cgi_from(200, Some(b"welcome to nginx")),
        AxisCgiResult { is_axis: false, status_code: 200 }
    );
    assert_eq!(
        axis_cgi_from(200, Some(b"<html>AXIS Music</html>")),
        AxisCgiResult { is_axis: false, status_code: 200 }
    );
    assert_eq!(
        axis_cgi_from(200, Some(b"{\"method\":\"basicDeviceInfo\"}")),
        AxisCgiResult { is_axis: false, status_code: 200 }
    );
    assert_eq!(
        axis_cgi_from(200, Some(br#"{"apiVersion":"1.0","error":{"code":1000}}"#)),
        AxisCgiResult { is_axis: true, status_code: 200 }
    );
    assert_eq!(
        axis_cgi_from(200, Some(br#"{"data":{"propertyList":{}}}"#)),
        AxisCgiResult { is_axis: true, status_code: 200 }
    );
    assert_eq!(
        axis_cgi_from(200, Some(b"SerialNumber=ACCC8E000000")),
        AxisCgiResult { is_axis: true, status_code: 200 }
    );
    assert_eq!(
        axis_cgi_from(200, Some(b"apiversion")),
        AxisCgiResult { is_axis: false, status_code: 200 }
    );
    assert_eq!(axis_cgi_from(200, None), AxisCgiResult { is_axis: false, status_code: 200 });
}

#[test]
fn bare_axis_is_no_marker() {
    assert!(scan_markers("<link href=\"axis.ui.css\">Axis Music").is_empty());
    assert!(scan_markers("AXIS").is_empty());
    assert!(scan_markers("AXIS IO Manager").is_empty());
    assert_eq!(scan_markers("<title>AXIS Q1615 Mk III</title>"), vec!["AXIS".to_string()]);
    assert_eq!(scan_markers("AXIS M3045-V"), vec!["AXIS".to_string()]);
    assert!(scan_markers("axis q1615").is_empty());
    assert_eq!(scan_markers("powered by VAPIX"), vec!["vapix".to_string()]);
    assert_eq!(
        scan_markers("AXIS P1375 via /AXIS-CGI/ and vapix"),
        vec!["AXIS".to_string(), "axis-cgi".to_string(), "vapix".to_string()]
    );
}

#[test]
fn webapp_titles() {
    assert_eq!(webapp_title_from(200, Some(b"<title>AXIS M3045</title>")), "AXIS M3045");
    assert_eq!(webapp_title_from(404, Some(b"<title>AXIS M3045</title>")), "");
    assert_eq!(webapp_title_from(200, None), "");
    assert_eq!(webapp_title_from(200, Some("\u{1e9e}<title>\u{e9}</title>".as_bytes())), "\u{e9}");
    assert_eq!(webapp_title_from(500, Some(b"x")), "");
}

#[test]
fn axis_cgi_judged_on_decoded_text() {
    assert_eq!(axis_cgi_from_text(200, "{\"apiVersion\":\"1.3\"}"), AxisCgiResult { is_axis: true, status_code: 200 });
    assert_eq!(axis_cgi_from_text(200, "AXIS"), AxisCgiResult { is_axis: false, status_code: 200 });
    assert_eq!(axis_cgi_from_text(401, ""), AxisCgiResult { is_axis: true, status_code: 401 });
    assert_eq!(axis_cgi_from_text(500, "SerialNumber"), AxisCgiResult { is_axis: false, status_code: 500 });
}
