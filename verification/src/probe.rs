//! What the HTTP probes of a host make of the answers: the generic HEAD/GET
//! probe and the Axis `basicdeviceinfo.cgi` and web application pages.
//! The requests themselves are made by the caller, which hands over the
//! status code, the `Server` header and the body bytes it received.

use vstd::prelude::*;
use crate::text::{
    chars_of, contains_chars, contains_seq, dec_digits, decode_lossy, eq_ignore_ascii_case,
    eq_ignore_case_chars, find, find_chars, find_chars_ci, find_ci, lemma_find_ci_from,
    lemma_find_from, lossy_utf8, matches_at, push_decimal, push_str, string_from_chars,
    to_uppercase, trim, trim_range, uppercase_of, views,
};

verus! {

broadcast use vstd::string::group_string_axioms;

/// Maximum number of body bytes looked at.
pub const MAX_BODY_READ: usize = 8192;

/// Outcome of probing a single host and port over plain HTTP(S).
#[derive(Debug)]
pub struct HttpResult {
    pub server_header: String,
    pub body_markers: Vec<String>,
    pub title: String,
    pub status_code: u16,
}

/// The content of an `HttpResult`.
pub struct HttpResultView {
    pub server_header: Seq<char>,
    pub body_markers: Seq<Seq<char>>,
    pub title: Seq<char>,
    pub status_code: u16,
}

impl View for HttpResult {
    type V = HttpResultView;

    open spec fn view(&self) -> HttpResultView {
        HttpResultView {
            server_header: self.server_header@,
            body_markers: views(self.body_markers@),
            title: self.title@,
            status_code: self.status_code,
        }
    }
}

impl Default for HttpResult {
    fn default() -> (r: Self)
        ensures
            r@ == (HttpResultView {
                server_header: Seq::empty(),
                body_markers: Seq::empty(),
                title: Seq::empty(),
                status_code: 0,
            }),
    {
        let r = HttpResult {
            server_header: String::new(),
            body_markers: Vec::new(),
            title: String::new(),
            status_code: 0,
        };
        assert(views(r.body_markers@) =~= Seq::empty());
        r
    }
}

/// Device information from the `getAllUnrestrictedProperties` method of
/// `basicdeviceinfo.cgi`.
#[derive(Debug)]
pub struct DeviceInfo {
    pub prod_full_name: String,
    pub prod_short_name: String,
    pub prod_nbr: String,
    pub prod_type: String,
    pub serial_number: String,
    pub firmware: String,
    pub is_axis: bool,
}

/// The content of a `DeviceInfo`.
pub struct DeviceInfoView {
    pub prod_full_name: Seq<char>,
    pub prod_short_name: Seq<char>,
    pub prod_nbr: Seq<char>,
    pub prod_type: Seq<char>,
    pub serial_number: Seq<char>,
    pub firmware: Seq<char>,
    pub is_axis: bool,
}

impl View for DeviceInfo {
    type V = DeviceInfoView;

    open spec fn view(&self) -> DeviceInfoView {
        DeviceInfoView {
            prod_full_name: self.prod_full_name@,
            prod_short_name: self.prod_short_name@,
            prod_nbr: self.prod_nbr@,
            prod_type: self.prod_type@,
            serial_number: self.serial_number@,
            firmware: self.firmware@,
            is_axis: self.is_axis,
        }
    }
}

/// Device information with nothing in it.
pub open spec fn empty_info() -> DeviceInfoView {
    DeviceInfoView {
        prod_full_name: Seq::empty(),
        prod_short_name: Seq::empty(),
        prod_nbr: Seq::empty(),
        prod_type: Seq::empty(),
        serial_number: Seq::empty(),
        firmware: Seq::empty(),
        is_axis: false,
    }
}

impl Default for DeviceInfo {
    fn default() -> (r: Self)
        ensures
            r@ == empty_info(),
    {
        DeviceInfo {
            prod_full_name: String::new(),
            prod_short_name: String::new(),
            prod_nbr: String::new(),
            prod_type: String::new(),
            serial_number: String::new(),
            firmware: String::new(),
            is_axis: false,
        }
    }
}

/// Outcome of probing `/axis-cgi/basicdeviceinfo.cgi` with GET.
#[derive(Debug, Clone, Copy, PartialEq, Eq, Structural)]
pub struct AxisCgiResult {
    pub is_axis: bool,
    pub status_code: u16,
}

impl Default for AxisCgiResult {
    fn default() -> (r: Self)
        ensures
            r == (AxisCgiResult { is_axis: false, status_code: 0 }),
    {
        AxisCgiResult { is_axis: false, status_code: 0 }
    }
}

// ---------------------------------------------------------------------------
// URLs
// ---------------------------------------------------------------------------

/// `https` for port 443, `http` otherwise.
pub open spec fn scheme(port: u16) -> Seq<char> {
    if port == 443 {
        "https"@
    } else {
        "http"@
    }
}

/// The scheme used to reach `port`.
pub fn scheme_for(port: u16) -> (r: &'static str)
    ensures
        r@ == scheme(port),
{
    if port == 443 {
        "https"
    } else {
        "http"
    }
}

/// `<scheme>://<ip>:<port><path>`.
pub open spec fn probe_url(ip: Seq<char>, port: u16, path: Seq<char>) -> Seq<char> {
    scheme(port) + "://"@ + ip + ":"@ + dec_digits(port as nat) + path
}

fn url_for(ip: &str, port: u16, path: &str) -> (r: String)
    ensures
        r@ == probe_url(ip@, port, path@),
{
    let mut cs: Vec<char> = Vec::new();
    push_str(&mut cs, scheme_for(port));
    push_str(&mut cs, "://");
    push_str(&mut cs, ip);
    push_str(&mut cs, ":");
    push_decimal(port as u64, &mut cs);
    push_str(&mut cs, path);
    assert(cs@ =~= probe_url(ip@, port, path@));
    string_from_chars(cs.as_slice())
}

/// The URL of the root page of `ip` at `port`.
pub fn root_url(ip: &str, port: u16) -> (r: String)
    ensures
        r@ == probe_url(ip@, port, "/"@),
{
    url_for(ip, port, "/")
}

/// The URL of `basicdeviceinfo.cgi` of `ip` at `port`.
pub fn device_info_url(ip: &str, port: u16) -> (r: String)
    ensures
        r@ == probe_url(ip@, port, "/axis-cgi/basicdeviceinfo.cgi"@),
{
    url_for(ip, port, "/axis-cgi/basicdeviceinfo.cgi")
}

/// The URL of the web application page of `ip` at `port`.
pub fn webapp_url(ip: &str, port: u16) -> (r: String)
    ensures
        r@ == probe_url(ip@, port, "/webapp/index.shtml"@),
{
    url_for(ip, port, "/webapp/index.shtml")
}

// ---------------------------------------------------------------------------
// Reading bodies
// ---------------------------------------------------------------------------

/// The part of a body that is looked at: its first `MAX_BODY_READ` bytes.
pub open spec fn body_prefix(b: Seq<u8>) -> Seq<u8> {
    if b.len() <= 8192 {
        b
    } else {
        b.take(8192)
    }
}

/// The text of the part of a body that is looked at.
pub fn body_text(b: &[u8]) -> (r: String)
    ensures
        r@ == lossy_utf8(body_prefix(b@)),
{
    let n = if b.len() < MAX_BODY_READ {
        b.len()
    } else {
        MAX_BODY_READ
    };
    let slice = &b[0..n];
    assert(slice@ =~= body_prefix(b@));
    decode_lossy(slice)
}

/// The phrases looked for in a body, ignoring case: the company name, the
/// CGI path and the API name.
pub open spec fn axis_phrases() -> Seq<Seq<char>> {
    seq!["Axis Communications"@, "axis-cgi"@, "vapix"@]
}

/// The phrases among `ms` that occur in upper-cased `upper` once
/// upper-cased themselves, in order.
pub open spec fn markers_found(upper: Seq<char>, ms: Seq<Seq<char>>) -> Seq<Seq<char>>
    decreases ms.len(),
{
    if ms.len() == 0 {
        Seq::empty()
    } else {
        let prev = markers_found(upper, ms.drop_last());
        if contains_seq(upper, uppercase_of(ms.last())) {
            prev.push(ms.last())
        } else {
            prev
        }
    }
}

/// An ASCII capital letter.
pub open spec fn is_capital(c: char) -> bool {
    65 <= c as u32 <= 90
}

/// An ASCII decimal digit.
pub open spec fn is_ascii_digit(c: char) -> bool {
    48 <= c as u32 <= 57
}

/// `AXIS ` followed by a space.
pub open spec fn axis_word() -> Seq<char> {
    seq!['A', 'X', 'I', 'S', ' ']
}

/// A product name starts at `i`: `AXIS `, then a model that begins with a
/// capital letter and a digit (as in `AXIS Q1615` or `AXIS M3045-V`).
pub open spec fn product_name_at(body: Seq<char>, i: int) -> bool {
    &&& 0 <= i
    &&& i + 7 <= body.len()
    &&& body.subrange(i, i + 5) == axis_word()
    &&& is_capital(body[i + 5])
    &&& is_ascii_digit(body[i + 6])
}

/// Some product name occurs in `body`.
pub open spec fn has_product_name(body: Seq<char>) -> bool {
    exists|i: int| product_name_at(body, i)
}

/// The Axis markers of a body.  `AXIS` marks a genuine use of the name: a
/// product name `AXIS <model>`, or the company name in any case; a bare
/// `AXIS` (as in `axis.ui.css` or an application called "Axis Music") is no
/// marker.  Then each of the phrases `Axis Communications`, `axis-cgi` and
/// `vapix` that occurs, ignoring case.
pub open spec fn body_markers_of(body: Seq<char>) -> Seq<Seq<char>> {
    let upper = uppercase_of(body);
    (if has_product_name(body) || contains_seq(upper, uppercase_of(axis_phrases()[0])) {
        seq!["AXIS"@]
    } else {
        Seq::empty()
    }) + markers_found(upper, axis_phrases())
}

/// Whether a product name occurs in `b`.
fn find_product_name(b: &[char]) -> (r: bool)
    ensures
        r == has_product_name(b@),
{
    let word: Vec<char> = vec!['A', 'X', 'I', 'S', ' '];
    assert(word@ =~= axis_word());
    let mut i: usize = 0;
    while i < b.len() && b.len() - i >= 7
        invariant
            i <= b@.len(),
            word@ == axis_word(),
            forall|j: int| 0 <= j < i ==> !product_name_at(b@, j),
        decreases b@.len() - i,
    {
        if matches_at(b, word.as_slice(), i) {
            let c = b[i + 5] as u32;
            let d = b[i + 6] as u32;
            if 65 <= c && c <= 90 && 48 <= d && d <= 57 {
                assert(product_name_at(b@, i as int));
                return true;
            }
        }
        i += 1;
    }
    assert forall|j: int| !product_name_at(b@, j) by {}
    false
}

/// The Axis markers of a body: `AXIS` for a product name or the company
/// name, then the phrases `Axis Communications`, `axis-cgi` and `vapix`
/// that occur, ignoring case.
pub fn scan_markers(body: &str) -> (r: Vec<String>)
    ensures
        views(r@) == body_markers_of(body@),
{
    let b = chars_of(body);
    let upper = to_uppercase(body);
    let uc = chars_of(upper.as_str());
    let ms: [&str; 3] = ["Axis Communications", "axis-cgi", "vapix"];
    let mut found: Vec<String> = Vec::new();
    let mut i: usize = 0;
    assert(axis_phrases().take(0) =~= Seq::<Seq<char>>::empty());
    let mut company = false;
    while i < 3
        invariant
            i <= 3,
            uc@ == uppercase_of(body@),
            forall|k: int| 0 <= k < 3 ==> (#[trigger] ms@[k])@ == axis_phrases()[k],
            views(found@) == markers_found(uc@, axis_phrases().take(i as int)),
            i > 0 ==> company == contains_seq(uc@, uppercase_of(axis_phrases()[0])),
        decreases 3 - i,
    {
        let m = ms[i];
        let mu = to_uppercase(m);
        let mc = chars_of(mu.as_str());
        assert(axis_phrases().take(i + 1).drop_last() =~= axis_phrases().take(i as int));
        assert(axis_phrases().take(i + 1).last() == m@);
        let hit = contains_chars(uc.as_slice(), mc.as_slice());
        if i == 0 {
            company = hit;
        }
        if hit {
            let ghost before = views(found@);
            found.push(m.to_string());
            assert(views(found@) =~= before.push(m@));
        }
        i += 1;
    }
    assert(axis_phrases().take(3) =~= axis_phrases());
    let mut out: Vec<String> = Vec::new();
    if find_product_name(b.as_slice()) || company {
        out.push("AXIS".to_string());
    }
    let ghost head = views(out@);
    assert(head == if has_product_name(body@) || company {
        seq!["AXIS"@]
    } else {
        Seq::<Seq<char>>::empty()
    }) by {
        if has_product_name(body@) || company {
            assert(head =~= seq!["AXIS"@]);
        } else {
            assert(head =~= Seq::<Seq<char>>::empty());
        }
    }
    let mut k: usize = 0;
    while k < found.len()
        invariant
            k <= found@.len(),
            views(out@) == head + views(found@).take(k as int),
        decreases found@.len() - k,
    {
        let c = found[k].clone();
        proof {
            crate::text::lemma_views_push(out@, c);
        }
        out.push(c);
        assert(head + views(found@).take(k + 1) =~= (head + views(found@).take(k as int)).push(
            found@[k as int]@,
        ));
        k += 1;
    }
    assert(views(found@).take(k as int) =~= views(found@));
    out
}

// ---------------------------------------------------------------------------
// Titles
// ---------------------------------------------------------------------------

/// The trimmed content of the first `<title>` element, the tags matched
/// ignoring ASCII case; nothing if there is none, or the content is empty
/// or the generic `Index page`.
pub open spec fn title_of(b: Seq<char>) -> Seq<char> {
    match find_ci(b, "<title>"@) {
        None => Seq::empty(),
        Some(i) => {
            let start = i + "<title>"@.len();
            match find_ci(b.skip(start), "</title>"@) {
                None => Seq::empty(),
                Some(j) => {
                    let t = trim(b.subrange(start, start + j));
                    if t.len() == 0 || eq_ignore_ascii_case(t, "Index page"@) {
                        Seq::empty()
                    } else {
                        t
                    }
                },
            }
        },
    }
}

/// Extracts the content of the first `<title>...</title>` element (the
/// tags in any ASCII case), trimmed; empty if there is none or the title
/// is generic (`Index page`).
pub fn extract_title(body: &str) -> (r: String)
    ensures
        r@ == title_of(body@),
{
    let b = chars_of(body);
    let open = chars_of("<title>");
    let close = chars_of("</title>");
    let i = match find_chars_ci(b.as_slice(), open.as_slice()) {
        Some(i) => i,
        None => return String::new(),
    };
    proof {
        lemma_find_ci_from(b@, open@, 0);
    }
    let start = i + open.len();
    let rest = &b[start..b.len()];
    assert(rest@ =~= b@.skip(start as int));
    let j = match find_chars_ci(rest, close.as_slice()) {
        Some(j) => j,
        None => return String::new(),
    };
    proof {
        lemma_find_ci_from(rest@, close@, 0);
    }
    let seg = &b[start..start + j];
    assert(seg@ =~= b@.subrange(start as int, start + j));
    let (u, v) = trim_range(seg);
    let t = &seg[u..v];
    assert(t@ =~= trim(b@.subrange(start as int, start + j)));
    let generic = chars_of("Index page");
    if t.len() == 0 || eq_ignore_case_chars(t, generic.as_slice()) {
        return String::new();
    }
    string_from_chars(t)
}

// ---------------------------------------------------------------------------
// JSON fields
// ---------------------------------------------------------------------------

/// `"key": "` (with a space after the colon).
pub open spec fn spaced_needle(key: Seq<char>) -> Seq<char> {
    "\""@ + key + "\": \""@
}

/// `"key":"` (without a space).
pub open spec fn tight_needle(key: Seq<char>) -> Seq<char> {
    "\""@ + key + "\":\""@
}

/// The string from `i` in `body` up to the next double quote, or nothing
/// if no quote follows.
pub open spec fn quoted_from(body: Seq<char>, i: int) -> Seq<char> {
    let rest = body.skip(i);
    match find(rest, "\""@) {
        Some(k) => rest.take(k),
        None => Seq::empty(),
    }
}

/// The string value of `"key": "value"` in `body` (the space after the
/// colon being optional), or nothing.
pub open spec fn json_field(body: Seq<char>, key: Seq<char>) -> Seq<char> {
    match find(body, spaced_needle(key)) {
        Some(i) => quoted_from(body, i + spaced_needle(key).len()),
        None => match find(body, tight_needle(key)) {
            Some(i) => quoted_from(body, i + tight_needle(key).len()),
            None => Seq::empty(),
        },
    }
}

fn quoted_at(b: &[char], start: usize) -> (r: String)
    requires
        start <= b@.len(),
    ensures
        r@ == quoted_from(b@, start as int),
{
    let rest = &b[start..b.len()];
    assert(rest@ =~= b@.skip(start as int));
    let quote = chars_of("\"");
    match find_chars(rest, quote.as_slice()) {
        Some(k) => {
            proof {
                lemma_find_from(rest@, quote@, 0);
            }
            let v = &rest[0..k];
            assert(v@ =~= rest@.take(k as int));
            string_from_chars(v)
        },
        None => String::new(),
    }
}

/// Minimal extraction of `"key": "value"` from a JSON text, tolerating the
/// absence of the space after the colon.
pub fn extract_json_field(body: &str, key: &str) -> (r: String)
    ensures
        r@ == json_field(body@, key@),
{
    let b = chars_of(body);
    let mut n1: Vec<char> = Vec::new();
    push_str(&mut n1, "\"");
    push_str(&mut n1, key);
    push_str(&mut n1, "\": \"");
    assert(n1@ =~= spaced_needle(key@));
    match find_chars(b.as_slice(), n1.as_slice()) {
        Some(i) => {
            proof {
                lemma_find_from(b@, n1@, 0);
            }
            assert(i + n1@.len() <= b.len());
            return quoted_at(b.as_slice(), i + n1.len());
        },
        None => {},
    }
    let mut n2: Vec<char> = Vec::new();
    push_str(&mut n2, "\"");
    push_str(&mut n2, key);
    push_str(&mut n2, "\":\"");
    assert(n2@ =~= tight_needle(key@));
    match find_chars(b.as_slice(), n2.as_slice()) {
        Some(i) => {
            proof {
                lemma_find_from(b@, n2@, 0);
            }
            assert(i + n2@.len() <= b.len());
            quoted_at(b.as_slice(), i + n2.len())
        },
        None => String::new(),
    }
}


// ---------------------------------------------------------------------------
// Answers
// ---------------------------------------------------------------------------

/// An optional body as an optional byte sequence.
pub open spec fn opt_body(body: Option<&[u8]>) -> Option<Seq<u8>> {
    match body {
        Some(b) => Some(b@),
        None => None,
    }
}

/// What a probe answer gives: its status and `Server` header, and, when a
/// body was read, the markers and title of its first bytes.
pub open spec fn http_result_of(status: u16, server: Seq<char>, body: Option<Seq<u8>>) -> HttpResultView {
    match body {
        None => HttpResultView {
            server_header: server,
            body_markers: Seq::empty(),
            title: Seq::empty(),
            status_code: status,
        },
        Some(b) => {
            let text = lossy_utf8(body_prefix(b));
            HttpResultView {
                server_header: server,
                body_markers: body_markers_of(text),
                title: title_of(text),
                status_code: status,
            }
        },
    }
}

/// The result of a probe answer with the given status code and `Server`
/// header; `body` holds the bytes read for a GET, and is absent for a HEAD
/// or when the body could not be read.
pub fn http_result_from(status_code: u16, server_header: String, body: Option<&[u8]>) -> (r:
    HttpResult)
    ensures
        r@ == http_result_of(status_code, server_header@, opt_body(body)),
{
    match body {
        None => {
            let r = HttpResult {
                server_header,
                body_markers: Vec::new(),
                title: String::new(),
                status_code,
            };
            assert(views(r.body_markers@) =~= Seq::empty());
            r
        },
        Some(b) => {
            let text = body_text(b);
            HttpResult {
                server_header,
                body_markers: scan_markers(text.as_str()),
                title: extract_title(text.as_str()),
                status_code,
            }
        },
    }
}

/// The content of an optional result.
pub open spec fn opt_view(r: Option<HttpResult>) -> Option<HttpResultView> {
    match r {
        Some(x) => Some(x@),
        None => None,
    }
}

/// What a GET gave, or an empty result when the request failed.
pub open spec fn get_or_empty(get: Option<HttpResultView>) -> HttpResultView {
    match get {
        Some(g) => g,
        None => HttpResult::default_view(),
    }
}

/// The outcome of probing a host and port: the HEAD answer when its status
/// is 2xx or 3xx; otherwise what the GET that follows gives.
pub open spec fn http_outcome(head: Option<HttpResultView>, get: Option<HttpResultView>) -> HttpResultView {
    match head {
        Some(h) => if 200 <= h.status_code < 400 {
            h
        } else {
            get_or_empty(get)
        },
        None => get_or_empty(get),
    }
}

/// What follows the HEAD request of a probe.
pub enum HeadStep {
    /// The HEAD answer is the outcome.
    Done(HttpResult),
    /// A GET is needed; its outcome is given by `fallback_result`.
    AskGet,
}

/// Decides on the HEAD answer (none when the request failed): a 2xx or 3xx
/// answer is the outcome whatever a GET would give; otherwise the outcome
/// is that of the GET.
pub fn after_head(head: Option<HttpResult>) -> (r: HeadStep)
    ensures
        r matches HeadStep::Done(x) ==> forall|g: Option<HttpResultView>|
            #[trigger] http_outcome(opt_view(head), g) == x@,
        r is AskGet ==> forall|g: Option<HttpResultView>|
            #[trigger] http_outcome(opt_view(head), g) == get_or_empty(g),
{
    match head {
        Some(h) => if h.status_code >= 200 && h.status_code < 400 {
            HeadStep::Done(h)
        } else {
            HeadStep::AskGet
        },
        None => HeadStep::AskGet,
    }
}

/// The result of the GET fallback: what it gave, or an empty result when
/// the request failed.
pub fn fallback_result(get: Option<HttpResult>) -> (r: HttpResult)
    ensures
        r@ == get_or_empty(opt_view(get)),
{
    match get {
        Some(g) => g,
        None => HttpResult::default(),
    }
}

impl HttpResult {
    /// An empty result.
    pub open spec fn default_view() -> HttpResultView {
        HttpResultView {
            server_header: Seq::empty(),
            body_markers: Seq::empty(),
            title: Seq::empty(),
            status_code: 0,
        }
    }
}

/// The device information in the answer of `basicdeviceinfo.cgi`: nothing
/// unless the status is 200 and a body was read; otherwise the fields of
/// the JSON text, the device counting as Axis when it names a product.
pub open spec fn device_info_of(status: u16, body: Option<Seq<u8>>) -> DeviceInfoView {
    if status != 200 {
        empty_info()
    } else {
        match body {
            None => empty_info(),
            Some(b) => {
                let text = lossy_utf8(body_prefix(b));
                let full = json_field(text, "ProdFullName"@);
                let short = json_field(text, "ProdShortName"@);
                DeviceInfoView {
                    prod_full_name: full,
                    prod_short_name: short,
                    prod_nbr: json_field(text, "ProdNbr"@),
                    prod_type: json_field(text, "ProdType"@),
                    serial_number: json_field(text, "SerialNumber"@),
                    firmware: json_field(text, "Version"@),
                    is_axis: full.len() > 0 || short.len() > 0,
                }
            },
        }
    }
}

/// The device information in an answer of `basicdeviceinfo.cgi` to
/// `getAllUnrestrictedProperties`.
pub fn device_info_from(status_code: u16, body: Option<&[u8]>) -> (r: DeviceInfo)
    ensures
        r@ == device_info_of(status_code, opt_body(body)),
{
    if status_code != 200 {
        return DeviceInfo::default();
    }
    let b = match body {
        Some(b) => b,
        None => return DeviceInfo::default(),
    };
    let text = body_text(b);
    let t = text.as_str();
    let mut info = DeviceInfo {
        prod_full_name: extract_json_field(t, "ProdFullName"),
        prod_short_name: extract_json_field(t, "ProdShortName"),
        prod_nbr: extract_json_field(t, "ProdNbr"),
        prod_type: extract_json_field(t, "ProdType"),
        serial_number: extract_json_field(t, "SerialNumber"),
        firmware: extract_json_field(t, "Version"),
        is_axis: false,
    };
    if !info.prod_full_name.as_str().is_empty() || !info.prod_short_name.as_str().is_empty() {
        info.is_axis = true;
    }
    info
}

/// The strings of a VAPIX answer: the JSON keys `apiVersion`,
/// `propertyList` and `SerialNumber` that `basicdeviceinfo.cgi` writes.
pub open spec fn vapix_keys() -> Seq<Seq<char>> {
    seq!["apiVersion"@, "propertyList"@, "SerialNumber"@]
}

/// The text holds a VAPIX signature: one of the keys, as written.
pub open spec fn has_vapix_signature(text: Seq<char>) -> bool {
    exists|i: int| 0 <= i < vapix_keys().len() && contains_seq(text, #[trigger] vapix_keys()[i])
}

/// What a GET of `basicdeviceinfo.cgi` shows, given the text of its body:
/// an answer of 401 is an Axis signal, and so is an answer of 200 whose
/// body carries a VAPIX signature; a 200 that only mentions `AXIS`
/// somewhere is not.
pub open spec fn axis_cgi_text_of(status: u16, text: Seq<char>) -> AxisCgiResult {
    AxisCgiResult {
        is_axis: status == 401 || (status == 200 && has_vapix_signature(text)),
        status_code: status,
    }
}

/// What a GET of `basicdeviceinfo.cgi` shows: the text of the first bytes
/// of its body, if one was read, judged by `axis_cgi_text_of`.
pub open spec fn axis_cgi_of(status: u16, body: Option<Seq<u8>>) -> AxisCgiResult {
    axis_cgi_text_of(
        status,
        match body {
            Some(b) => lossy_utf8(body_prefix(b)),
            None => Seq::empty(),
        },
    )
}

/// The outcome of a GET of `basicdeviceinfo.cgi`.
pub fn axis_cgi_from(status_code: u16, body: Option<&[u8]>) -> (r: AxisCgiResult)
    ensures
        r == axis_cgi_of(status_code, opt_body(body)),
{
    let text = match body {
        Some(b) => body_text(b),
        None => String::new(),
    };
    axis_cgi_from_text(status_code, text.as_str())
}

/// The outcome of a GET of `basicdeviceinfo.cgi`, given the text of its
/// body.
pub fn axis_cgi_from_text(status_code: u16, text: &str) -> (r: AxisCgiResult)
    ensures
        r == axis_cgi_text_of(status_code, text@),
{
    if status_code == 401 {
        return AxisCgiResult { is_axis: true, status_code };
    }
    if status_code != 200 {
        return AxisCgiResult { is_axis: false, status_code };
    }
    let tc = chars_of(text);
    let keys: [&str; 3] = ["apiVersion", "propertyList", "SerialNumber"];
    let mut found = false;
    let mut i: usize = 0;
    while i < 3
        invariant
            i <= 3,
            forall|k: int| 0 <= k < 3 ==> (#[trigger] keys@[k])@ == vapix_keys()[k],
            found == exists|k: int| 0 <= k < i && contains_seq(tc@, #[trigger] vapix_keys()[k]),
        decreases 3 - i,
    {
        let kc = chars_of(keys[i]);
        if contains_chars(tc.as_slice(), kc.as_slice()) {
            found = true;
        }
        i += 1;
    }
    AxisCgiResult { is_axis: found, status_code }
}

/// The title of the web application page: nothing unless the status is 200
/// and a body was read.
pub open spec fn webapp_title_of(status: u16, body: Option<Seq<u8>>) -> Seq<char> {
    if status != 200 {
        Seq::empty()
    } else {
        match body {
            None => Seq::empty(),
            Some(b) => title_of(lossy_utf8(body_prefix(b))),
        }
    }
}

/// The product name that the web application page gives in its title.
pub fn webapp_title_from(status_code: u16, body: Option<&[u8]>) -> (r: String)
    ensures
        r@ == webapp_title_of(status_code, opt_body(body)),
{
    if status_code != 200 {
        return String::new();
    }
    match body {
        Some(b) => {
            let text = body_text(b);
            extract_title(text.as_str())
        },
        None => String::new(),
    }
}

} // verus!
