//! The discovered device, the evidence collected about it, and how devices
//! found by several methods are merged and ordered.

use vstd::prelude::*;
use vstd::relations::{sorted_by, total_ordering};
use crate::ipv4::{ipv4_chars, ipv4_text};
use crate::text::{lemma_views_push, push_str, string_from_chars, views};

verus! {

broadcast use vstd::string::group_string_axioms;

/// How likely a device is an Axis product.
#[derive(Clone, Copy, Debug, PartialEq, Eq, Structural)]
pub enum Confidence {
    NoEvidence,
    Low,
    Medium,
    High,
}

impl Default for Confidence {
    fn default() -> (r: Self)
        ensures
            r == Confidence::NoEvidence,
    {
        Confidence::NoEvidence
    }
}

/// Evidence collected during discovery that feeds into the confidence
/// score.
#[derive(Debug)]
pub struct Hints {
    pub server_header: String,
    pub ssdp_server: String,
    pub mac: String,
    pub body_markers: Vec<String>,
    pub axis_cgi: bool,
    pub device_name: String,
    pub prod_nbr: String,
    pub prod_type: String,
    pub serial_number: String,
    pub firmware: String,
}

/// The content of `Hints`.
pub struct HintsView {
    pub server_header: Seq<char>,
    pub ssdp_server: Seq<char>,
    pub mac: Seq<char>,
    pub body_markers: Seq<Seq<char>>,
    pub axis_cgi: bool,
    pub device_name: Seq<char>,
    pub prod_nbr: Seq<char>,
    pub prod_type: Seq<char>,
    pub serial_number: Seq<char>,
    pub firmware: Seq<char>,
}

impl View for Hints {
    type V = HintsView;

    open spec fn view(&self) -> HintsView {
        HintsView {
            server_header: self.server_header@,
            ssdp_server: self.ssdp_server@,
            mac: self.mac@,
            body_markers: views(self.body_markers@),
            axis_cgi: self.axis_cgi,
            device_name: self.device_name@,
            prod_nbr: self.prod_nbr@,
            prod_type: self.prod_type@,
            serial_number: self.serial_number@,
            firmware: self.firmware@,
        }
    }
}

/// Hints with no evidence at all.
pub open spec fn empty_hints() -> HintsView {
    HintsView {
        server_header: Seq::empty(),
        ssdp_server: Seq::empty(),
        mac: Seq::empty(),
        body_markers: Seq::empty(),
        axis_cgi: false,
        device_name: Seq::empty(),
        prod_nbr: Seq::empty(),
        prod_type: Seq::empty(),
        serial_number: Seq::empty(),
        firmware: Seq::empty(),
    }
}

impl Default for Hints {
    fn default() -> (r: Self)
        ensures
            r@ == empty_hints(),
    {
        let r = Hints {
            server_header: String::new(),
            ssdp_server: String::new(),
            mac: String::new(),
            body_markers: Vec::new(),
            axis_cgi: false,
            device_name: String::new(),
            prod_nbr: String::new(),
            prod_type: String::new(),
            serial_number: String::new(),
            firmware: String::new(),
        };
        assert(views(r.body_markers@) =~= Seq::empty());
        r
    }
}

/// A copy of a list of strings.
pub fn clone_strings(v: &Vec<String>) -> (r: Vec<String>)
    ensures
        views(r@) == views(v@),
{
    let mut r: Vec<String> = Vec::new();
    let mut i: usize = 0;
    while i < v.len()
        invariant
            i <= v@.len(),
            views(r@) == views(v@).take(i as int),
        decreases v@.len() - i,
    {
        let c = v[i].clone();
        assert(c@ == v@[i as int]@);
        proof {
            lemma_views_push(r@, c);
        }
        r.push(c);
        assert(views(v@).take(i + 1) =~= views(v@).take(i as int).push(v@[i as int]@));
        i += 1;
    }
    assert(views(v@).take(v@.len() as int) =~= views(v@));
    r
}

impl Clone for Hints {
    fn clone(&self) -> (r: Self)
        ensures
            r@ == self@,
    {
        Hints {
            server_header: self.server_header.clone(),
            ssdp_server: self.ssdp_server.clone(),
            mac: self.mac.clone(),
            body_markers: clone_strings(&self.body_markers),
            axis_cgi: self.axis_cgi,
            device_name: self.device_name.clone(),
            prod_nbr: self.prod_nbr.clone(),
            prod_type: self.prod_type.clone(),
            serial_number: self.serial_number.clone(),
            firmware: self.firmware.clone(),
        }
    }
}

/// A single discovered network device, identified by its IPv4 address.
#[derive(Debug)]
pub struct Device {
    pub ip: u32,
    pub url: String,
    pub methods: Vec<String>,
    pub open_ports: Vec<u16>,
    pub confidence: Confidence,
    pub hints: Hints,
}

/// The content of a `Device`.
pub struct DeviceView {
    pub ip: u32,
    pub url: Seq<char>,
    pub methods: Seq<Seq<char>>,
    pub open_ports: Seq<u16>,
    pub confidence: Confidence,
    pub hints: HintsView,
}

impl View for Device {
    type V = DeviceView;

    open spec fn view(&self) -> DeviceView {
        DeviceView {
            ip: self.ip,
            url: self.url@,
            methods: views(self.methods@),
            open_ports: self.open_ports@,
            confidence: self.confidence,
            hints: self.hints@,
        }
    }
}

impl Clone for Device {
    fn clone(&self) -> (r: Self)
        ensures
            r@ == self@,
    {
        Device {
            ip: self.ip,
            url: self.url.clone(),
            methods: clone_strings(&self.methods),
            open_ports: self.open_ports.clone(),
            confidence: self.confidence,
            hints: self.hints.clone(),
        }
    }
}

/// The views of a list of devices.
pub open spec fn device_views(v: Seq<Device>) -> Seq<DeviceView> {
    v.map_values(|d: Device| d@)
}

/// `http://<ip>/`.
pub open spec fn http_url(ip: u32) -> Seq<char> {
    "http://"@ + ipv4_text(ip) + "/"@
}

/// `https://<ip>/`.
pub open spec fn https_url(ip: u32) -> Seq<char> {
    "https://"@ + ipv4_text(ip) + "/"@
}

/// A device just found at `ip` by `method`: no ports, no confidence, no
/// hints, and a plain HTTP URL.
pub open spec fn new_device(ip: u32, method: Seq<char>) -> DeviceView {
    DeviceView {
        ip,
        url: http_url(ip),
        methods: seq![method],
        open_ports: Seq::empty(),
        confidence: Confidence::NoEvidence,
        hints: empty_hints(),
    }
}

/// `http://<ip>/` as a string.
pub fn http_url_of(ip: u32) -> (r: String)
    ensures
        r@ == http_url(ip),
{
    let mut cs: Vec<char> = Vec::new();
    push_str(&mut cs, "http://");
    let mut ipc = ipv4_chars(ip);
    cs.append(&mut ipc);
    push_str(&mut cs, "/");
    string_from_chars(cs.as_slice())
}

/// `https://<ip>/` as a string.
pub fn https_url_of(ip: u32) -> (r: String)
    ensures
        r@ == https_url(ip),
{
    let mut cs: Vec<char> = Vec::new();
    push_str(&mut cs, "https://");
    let mut ipc = ipv4_chars(ip);
    cs.append(&mut ipc);
    push_str(&mut cs, "/");
    string_from_chars(cs.as_slice())
}

impl Device {
    /// A device just found at `ip` by `method`.
    pub fn new(ip: u32, method: &str) -> (r: Device)
        ensures
            r@ == new_device(ip, method@),
    {
        let mut methods: Vec<String> = Vec::new();
        methods.push(method.to_owned());
        let r = Device {
            ip,
            url: http_url_of(ip),
            methods,
            open_ports: Vec::new(),
            confidence: Confidence::NoEvidence,
            hints: Hints::default(),
        };
        assert(views(r.methods@) =~= seq![method@]);
        r
    }
}

/// Whether `b` is false (the serialised form leaves false flags out).
pub fn is_false(b: &bool) -> (r: bool)
    ensures
        r == !*b,
{
    !*b
}

// ---------------------------------------------------------------------------
// Unions of lists
// ---------------------------------------------------------------------------

/// `a` followed by the elements of `b` that are not yet present, in the
/// order of `b` (an element repeated in `b` is taken once).
pub open spec fn append_new<T>(a: Seq<T>, b: Seq<T>) -> Seq<T>
    decreases b.len(),
{
    if b.len() == 0 {
        a
    } else {
        let r = append_new(a, b.drop_last());
        if r.contains(b.last()) {
            r
        } else {
            r.push(b.last())
        }
    }
}

/// Whether a string with the characters of `s` is in `v`.
pub fn contains_string(v: &Vec<String>, s: &String) -> (r: bool)
    ensures
        r == views(v@).contains(s@),
{
    let mut i: usize = 0;
    while i < v.len()
        invariant
            i <= v@.len(),
            forall|k: int| 0 <= k < i ==> views(v@)[k] != s@,
        decreases v@.len() - i,
    {
        if v[i] == *s {
            assert(views(v@)[i as int] == s@);
            return true;
        }
        i += 1;
    }
    false
}

/// `a` followed by the strings of `b` that are not yet present.
pub fn unique_strings(a: &[String], b: &[String]) -> (r: Vec<String>)
    ensures
        views(r@) == append_new(views(a@), views(b@)),
{
    let mut r: Vec<String> = Vec::new();
    let mut i: usize = 0;
    while i < a.len()
        invariant
            i <= a@.len(),
            views(r@) == views(a@).take(i as int),
        decreases a@.len() - i,
    {
        let c = a[i].clone();
        assert(c@ == a@[i as int]@);
        proof {
            lemma_views_push(r@, c);
        }
        r.push(c);
        assert(views(a@).take(i + 1) =~= views(a@).take(i as int).push(a@[i as int]@));
        i += 1;
    }
    assert(views(a@).take(a@.len() as int) =~= views(a@));
    let mut j: usize = 0;
    assert(views(b@).take(0) =~= Seq::<Seq<char>>::empty());
    while j < b.len()
        invariant
            j <= b@.len(),
            views(r@) == append_new(views(a@), views(b@).take(j as int)),
        decreases b@.len() - j,
    {
        assert(views(b@).take(j + 1).drop_last() =~= views(b@).take(j as int));
        assert(views(b@).take(j + 1).last() == b@[j as int]@);
        if !contains_string(&r, &b[j]) {
            let c = b[j].clone();
            proof {
                lemma_views_push(r@, c);
            }
            r.push(c);
        }
        j += 1;
    }
    assert(views(b@).take(b@.len() as int) =~= views(b@));
    r
}

/// The order of ports.
pub open spec fn port_leq() -> spec_fn(u16, u16) -> bool {
    |x: u16, y: u16| x <= y
}

/// Port lists are sorted ascending; sorting a permutation gives the same
/// list.
proof fn lemma_sorted_ports(r: Seq<u16>, s: Seq<u16>)
    requires
        sorted_by(r, port_leq()),
        r.to_multiset() == s.to_multiset(),
    ensures
        r == s.sort_by(port_leq()),
{
    assert(total_ordering(port_leq()));
    s.lemma_sort_by_ensures(port_leq());
    vstd::seq_lib::lemma_sorted_unique(r, s.sort_by(port_leq()), port_leq());
}

/// The ports of `v` in ascending order.
pub fn sort_ports(v: &Vec<u16>) -> (r: Vec<u16>)
    ensures
        r@ == v@.sort_by(port_leq()),
{
    broadcast use vstd::seq_lib::group_to_multiset_ensures;

    let mut r: Vec<u16> = Vec::new();
    let mut i: usize = 0;
    assert(v@.take(0) =~= Seq::<u16>::empty());
    while i < v.len()
        invariant
            i <= v@.len(),
            sorted_by(r@, port_leq()),
            r@.to_multiset() == v@.take(i as int).to_multiset(),
        decreases v@.len() - i,
    {
        let x = v[i];
        let mut k: usize = 0;
        while k < r.len() && r[k] <= x
            invariant
                k <= r@.len(),
                forall|j: int| 0 <= j < k ==> r@[j] <= x,
            decreases r@.len() - k,
        {
            k += 1;
        }
        let ghost old_r = r@;
        r.insert(k, x);
        assert(r@ == old_r.insert(k as int, x));
        assert forall|a: int, b: int| 0 <= a < b < r@.len() implies #[trigger] (port_leq())(
            r@[a],
            r@[b],
        ) by {
            if b < k {
                assert((port_leq())(old_r[a], old_r[b]));
            } else if b == k {
                assert(r@[a] == old_r[a]);
            } else if a == k {
                assert(r@[b] == old_r[b - 1]);
                assert((port_leq())(old_r[k as int], old_r[b - 1]));
            } else if a < k {
                assert(r@[b] == old_r[b - 1]);
                assert(old_r[a] <= x);
            } else {
                assert((port_leq())(old_r[a - 1], old_r[b - 1]));
            }
        }
        proof {
            vstd::seq_lib::to_multiset_insert(old_r, k as int, x);
        }
        assert(v@.take(i + 1) =~= v@.take(i as int).push(x));
        proof {
            vstd::seq_lib::to_multiset_build(v@.take(i as int), x);
        }
        i += 1;
    }
    assert(v@.take(v@.len() as int) =~= v@);
    proof {
        lemma_sorted_ports(r@, v@);
    }
    r
}

/// `a` followed by the ports of `b` not yet present, in ascending order.
pub fn unique_ints(a: &[u16], b: &[u16]) -> (r: Vec<u16>)
    ensures
        r@ == append_new(a@, b@).sort_by(port_leq()),
{
    let mut r: Vec<u16> = Vec::new();
    let mut i: usize = 0;
    while i < a.len()
        invariant
            i <= a@.len(),
            r@ == a@.take(i as int),
        decreases a@.len() - i,
    {
        r.push(a[i]);
        assert(r@ =~= a@.take(i + 1));
        i += 1;
    }
    assert(a@.take(a@.len() as int) =~= a@);
    let mut j: usize = 0;
    assert(b@.take(0) =~= Seq::<u16>::empty());
    while j < b.len()
        invariant
            j <= b@.len(),
            r@ == append_new(a@, b@.take(j as int)),
        decreases b@.len() - j,
    {
        assert(b@.take(j + 1).drop_last() =~= b@.take(j as int));
        let x = b[j];
        let mut k: usize = 0;
        let mut found = false;
        while k < r.len()
            invariant
                k <= r@.len(),
                found == exists|m: int| 0 <= m < k && r@[m] == x,
            decreases r@.len() - k,
        {
            if r[k] == x {
                found = true;
            }
            k += 1;
        }
        if !found {
            r.push(x);
        } else {
            assert(r@.contains(x));
        }
        j += 1;
    }
    assert(b@.take(b@.len() as int) =~= b@);
    sort_ports(&r)
}


// ---------------------------------------------------------------------------
// Merging two records of one device
// ---------------------------------------------------------------------------

/// `a` unless it is empty, else `b`.
pub open spec fn fill(a: Seq<char>, b: Seq<char>) -> Seq<char> {
    if a.len() == 0 {
        b
    } else {
        a
    }
}

/// The hints `h` completed with those of `s`: empty fields are filled,
/// markers are united, and the `axis_cgi` flag is set if either has it.
pub open spec fn merge_hints(h: HintsView, s: HintsView) -> HintsView {
    HintsView {
        server_header: fill(h.server_header, s.server_header),
        ssdp_server: fill(h.ssdp_server, s.ssdp_server),
        mac: fill(h.mac, s.mac),
        body_markers: append_new(h.body_markers, s.body_markers),
        axis_cgi: h.axis_cgi || s.axis_cgi,
        device_name: fill(h.device_name, s.device_name),
        prod_nbr: fill(h.prod_nbr, s.prod_nbr),
        prod_type: fill(h.prod_type, s.prod_type),
        serial_number: fill(h.serial_number, s.serial_number),
        firmware: fill(h.firmware, s.firmware),
    }
}

/// `d` with `s` folded in: methods and ports united (ports in ascending
/// order), hints merged, and the URL of `s` taken only if `d` has none.
pub open spec fn merged(d: DeviceView, s: DeviceView) -> DeviceView {
    DeviceView {
        ip: d.ip,
        url: if s.url.len() > 0 && d.url.len() == 0 {
            s.url
        } else {
            d.url
        },
        methods: append_new(d.methods, s.methods),
        open_ports: append_new(d.open_ports, s.open_ports).sort_by(port_leq()),
        confidence: d.confidence,
        hints: merge_hints(d.hints, s.hints),
    }
}

fn fill_string(dst: &mut String, src: &String)
    ensures
        final(dst)@ == fill(old(dst)@, src@),
{
    if dst.as_str().is_empty() {
        *dst = src.clone();
    }
}

/// Folds `src` into `dst`.
pub fn merge_into(dst: &mut Device, src: &Device)
    ensures
        final(dst)@ == merged(old(dst)@, src@),
{
    dst.methods = unique_strings(dst.methods.as_slice(), src.methods.as_slice());
    dst.open_ports = unique_ints(dst.open_ports.as_slice(), src.open_ports.as_slice());
    fill_string(&mut dst.hints.server_header, &src.hints.server_header);
    fill_string(&mut dst.hints.ssdp_server, &src.hints.ssdp_server);
    fill_string(&mut dst.hints.mac, &src.hints.mac);
    if src.hints.axis_cgi {
        dst.hints.axis_cgi = true;
    }
    fill_string(&mut dst.hints.device_name, &src.hints.device_name);
    fill_string(&mut dst.hints.prod_nbr, &src.hints.prod_nbr);
    fill_string(&mut dst.hints.prod_type, &src.hints.prod_type);
    fill_string(&mut dst.hints.serial_number, &src.hints.serial_number);
    fill_string(&mut dst.hints.firmware, &src.hints.firmware);
    dst.hints.body_markers = unique_strings(
        dst.hints.body_markers.as_slice(),
        src.hints.body_markers.as_slice(),
    );
    if !src.url.as_str().is_empty() && dst.url.as_str().is_empty() {
        dst.url = src.url.clone();
    }
}

/// Adding the new elements of `b` to `a` keeps `a` as the front, gives
/// exactly the elements of either list, and adds no duplicate to a list
/// that had none.
pub proof fn lemma_append_new<T>(a: Seq<T>, b: Seq<T>)
    ensures
        append_new(a, b).len() >= a.len(),
        append_new(a, b).take(a.len() as int) == a,
        forall|x: T| #[trigger] append_new(a, b).contains(x) <==> (a.contains(x) || b.contains(x)),
        a.no_duplicates() ==> append_new(a, b).no_duplicates(),
    decreases b.len(),
{
    if b.len() > 0 {
        let r = append_new(a, b.drop_last());
        lemma_append_new(a, b.drop_last());
        let y = b.last();
        assert forall|x: T| #[trigger] append_new(a, b).contains(x) <==> (a.contains(x)
            || b.contains(x)) by {
            if b.drop_last().contains(x) {
                let j = choose|j: int| 0 <= j < b.drop_last().len() && b.drop_last()[j] == x;
                assert(b[j] == x);
            }
            if b.contains(x) {
                let j = choose|j: int| 0 <= j < b.len() && b[j] == x;
                if j < b.len() - 1 {
                    assert(b.drop_last()[j] == x);
                }
            }
            if !r.contains(y) {
                if r.push(y).contains(x) {
                    let j = choose|j: int| 0 <= j < r.push(y).len() && r.push(y)[j] == x;
                    if j < r.len() {
                        assert(r[j] == x);
                    }
                }
                if r.contains(x) {
                    let j = choose|j: int| 0 <= j < r.len() && r[j] == x;
                    assert(r.push(y)[j] == x);
                }
                if x == y {
                    assert(r.push(y)[r.len() as int] == x);
                }
            }
            assert(b[b.len() - 1] == y);
        }
        if !r.contains(y) {
            assert(r.push(y).take(a.len() as int) =~= r.take(a.len() as int));
        }
    }
}

/// Merging two records of one address unites their ports: the result is
/// in ascending order, holds exactly the ports of either, and has no
/// duplicate when the first had none.  Methods and markers are the first
/// list followed by the new elements of the second (`lemma_append_new`).
pub proof fn lemma_merged_ports(d: DeviceView, s: DeviceView)
    ensures
        forall|i: int, j: int|
            0 <= i < j < merged(d, s).open_ports.len() ==> merged(d, s).open_ports[i]
                <= merged(d, s).open_ports[j],
        forall|p: u16| #[trigger] merged(d, s).open_ports.contains(p) <==> (d.open_ports.contains(p)
            || s.open_ports.contains(p)),
        d.open_ports.no_duplicates() ==> merged(d, s).open_ports.no_duplicates(),
{
    broadcast use vstd::seq_lib::group_to_multiset_ensures;

    let u = append_new(d.open_ports, s.open_ports);
    let v = u.sort_by(port_leq());
    lemma_append_new(d.open_ports, s.open_ports);
    assert(total_ordering(port_leq()));
    u.lemma_sort_by_ensures(port_leq());
    assert forall|i: int, j: int| 0 <= i < j < v.len() implies v[i] <= v[j] by {
        assert((port_leq())(v[i], v[j]));
    }
    assert forall|p: u16| #[trigger] v.contains(p) <==> u.contains(p) by {
        assert(v.to_multiset().count(p) == u.to_multiset().count(p));
    }
    if d.open_ports.no_duplicates() {
        u.lemma_multiset_has_no_duplicates();
        v.lemma_multiset_has_no_duplicates_conv();
    }
}

/// The devices that the items of `xs` stand for, in order, leaving out the
/// items that stand for none.
pub open spec fn found_by<D>(xs: Seq<D>, dev: spec_fn(D) -> Option<DeviceView>) -> Seq<DeviceView>
    decreases xs.len(),
{
    if xs.len() == 0 {
        Seq::empty()
    } else {
        let p = found_by(xs.drop_last(), dev);
        match dev(xs.last()) {
            Some(d) => p.push(d),
            None => p,
        }
    }
}

/// Item `x` stands for a device at `ip`.
pub open spec fn stands_at<D>(dev: spec_fn(D) -> Option<DeviceView>, ip: u32, x: D) -> bool {
    dev(x) is Some && dev(x)->0.ip == ip
}

/// An item stands for a device at `ip`.
pub open spec fn found_at<D>(dev: spec_fn(D) -> Option<DeviceView>, ip: u32) -> spec_fn(D) -> bool {
    |x: D| stands_at(dev, ip, x)
}

/// The device that an item stands for.
pub open spec fn device_of<D>(dev: spec_fn(D) -> Option<DeviceView>) -> spec_fn(D) -> DeviceView {
    |x: D| dev(x)->0
}

/// The devices found at an address are those of the items that stand for
/// a device there, in order; and a device is found at an address exactly
/// when some item stands for one there.
pub proof fn lemma_found_by<D>(xs: Seq<D>, dev: spec_fn(D) -> Option<DeviceView>)
    ensures
        forall|ip: u32|
            #[trigger] found_by(xs, dev).filter(at_ip(ip)) == xs.filter(found_at(dev, ip)).map_values(
                device_of(dev),
            ),
        forall|ip: u32|
            has_ip(found_by(xs, dev), ip) <==> exists|j: int|
                0 <= j < xs.len() && #[trigger] stands_at(dev, ip, xs[j]),
    decreases xs.len(),
{
    reveal(Seq::filter);
    if xs.len() > 0 {
        let prev = xs.drop_last();
        let x = xs.last();
        lemma_found_by(prev, dev);
        let p = found_by(prev, dev);
        let r = found_by(xs, dev);
        assert forall|ip: u32| #[trigger] found_by(xs, dev).filter(at_ip(ip)) == xs.filter(
            found_at(dev, ip),
        ).map_values(device_of(dev)) by {
            let f = found_at(dev, ip);
            let g = device_of(dev);
            assert(xs.filter(f) == if f(x) {
                prev.filter(f).push(x)
            } else {
                prev.filter(f)
            });
            if dev(x) is Some {
                let d = dev(x)->0;
                assert(r == p.push(d));
                assert(p.push(d).drop_last() =~= p);
                assert(r.filter(at_ip(ip)) == if d.ip == ip {
                    p.filter(at_ip(ip)).push(d)
                } else {
                    p.filter(at_ip(ip))
                });
                if d.ip == ip {
                    assert(prev.filter(f).push(x).map_values(g) =~= prev.filter(f).map_values(g).push(
                        d,
                    ));
                }
            } else {
                assert(r == p);
            }
        }
        assert forall|ip: u32| has_ip(r, ip) <==> exists|j: int|
            0 <= j < xs.len() && #[trigger] stands_at(dev, ip, xs[j]) by {
            if has_ip(r, ip) {
                let i = choose|i: int| 0 <= i < r.len() && #[trigger] r[i].ip == ip;
                if i < p.len() {
                    assert(r[i] == p[i]);
                    assert(has_ip(p, ip));
                    let j = choose|j: int| 0 <= j < prev.len() && #[trigger] stands_at(dev, ip, prev[j]);
                    assert(xs[j] == prev[j]);
                    assert(stands_at(dev, ip, xs[j]));
                } else {
                    assert(stands_at(dev, ip, xs[xs.len() - 1]));
                }
            }
            if exists|j: int| 0 <= j < xs.len() && #[trigger] stands_at(dev, ip, xs[j]) {
                let j = choose|j: int| 0 <= j < xs.len() && #[trigger] stands_at(dev, ip, xs[j]);
                if j < prev.len() {
                    assert(prev[j] == xs[j]);
                    assert(stands_at(dev, ip, prev[j]));
                    assert(has_ip(p, ip));
                    let i = choose|i: int| 0 <= i < p.len() && #[trigger] p[i].ip == ip;
                    assert(r[i] == p[i]);
                } else {
                    assert(r[r.len() - 1].ip == ip);
                }
            }
        }
    }
}

// ---------------------------------------------------------------------------
// Devices keyed by address
// ---------------------------------------------------------------------------
//
// A list of devices keyed by address is a vector in ascending order of
// address, a device going to its `slot`.  vstd specifies `insert`, `get`,
// `remove` and the borrowing iterators of `BTreeMap`, but not `get_mut`,
// `entry` or `into_values`, which updating a device in an ordered map and
// handing the devices out would need; the ordered vector keeps the same
// order and lets each contract say which device sits where.

/// The first position at or after `i` whose address is not below `ip`
/// (the length of `s` if there is none).
pub open spec fn first_not_below(s: Seq<DeviceView>, ip: u32, i: int) -> int
    decreases s.len() - i,
{
    if i < 0 || i >= s.len() {
        s.len() as int
    } else if s[i].ip >= ip {
        i
    } else {
        first_not_below(s, ip, i + 1)
    }
}

/// Where a device at `ip` goes in the address-ordered list `s`.
pub open spec fn slot(s: Seq<DeviceView>, ip: u32) -> int {
    first_not_below(s, ip, 0)
}

/// Whether the device at `slot(s, ip)` is at `ip`.
pub open spec fn has_ip_at_slot(s: Seq<DeviceView>, ip: u32) -> bool {
    slot(s, ip) < s.len() && s[slot(s, ip)].ip == ip
}

/// Adds `d` to the address-ordered list `s`: merged into the device at its
/// address if there is one, inserted in order otherwise.
pub open spec fn upsert(s: Seq<DeviceView>, d: DeviceView) -> Seq<DeviceView> {
    if has_ip_at_slot(s, d.ip) {
        s.update(slot(s, d.ip), merged(s[slot(s, d.ip)], d))
    } else {
        s.insert(slot(s, d.ip), d)
    }
}

/// All of `ds` added in turn to an empty list.
pub open spec fn merge_all(ds: Seq<DeviceView>) -> Seq<DeviceView>
    decreases ds.len(),
{
    if ds.len() == 0 {
        Seq::empty()
    } else {
        upsert(merge_all(ds.drop_last()), ds.last())
    }
}

/// The devices of several lists, in order.
pub open spec fn flat_views(slices: Seq<Vec<Device>>) -> Seq<DeviceView> {
    slices.map_values(|v: Vec<Device>| device_views(v@)).flatten()
}

/// Where a device at `ip` goes in `v`.
pub fn find_slot(v: &Vec<Device>, ip: u32) -> (r: usize)
    ensures
        r == slot(device_views(v@), ip),
        r <= v@.len(),
{
    let mut k: usize = 0;
    while k < v.len() && v[k].ip < ip
        invariant
            k <= v@.len(),
            slot(device_views(v@), ip) == first_not_below(device_views(v@), ip, k as int),
        decreases v@.len() - k,
    {
        k += 1;
    }
    k
}

/// Adds `d` to `v` as `upsert` says.
pub fn upsert_device(v: &mut Vec<Device>, d: Device)
    ensures
        device_views(final(v)@) == upsert(device_views(old(v)@), d@),
{
    let k = find_slot(v, d.ip);
    let ghost old_views = device_views(v@);
    if k < v.len() && v[k].ip == d.ip {
        merge_into(&mut v[k], &d);
        assert(device_views(v@) =~= old_views.update(k as int, merged(old_views[k as int], d@)));
    } else {
        v.insert(k, d);
        assert(device_views(v@) =~= old_views.insert(k as int, d@));
    }
}

/// Combines several lists of devices into one with a single entry per
/// address, in ascending order of address; devices found at the same
/// address are merged in the order they come.
pub fn merge_devices(slices: Vec<Vec<Device>>) -> (r: Vec<Device>)
    ensures
        device_views(r@) == merge_all(flat_views(slices@)),
{
    let mut slices = slices;
    let ghost all = slices@;
    let mut acc: Vec<Device> = Vec::new();
    let mut n: usize = 0;
    let total = slices.len();
    assert(all.len() == total);
    assert(all.take(0).map_values(|v: Vec<Device>| device_views(v@)).flatten() =~= Seq::empty());
    while slices.len() > 0
        invariant
            n + slices@.len() == all.len(),
            all.len() <= usize::MAX,
            slices@ == all.skip(n as int),
            device_views(acc@) == merge_all(flat_views(all.take(n as int))),
        decreases slices@.len(),
    {
        let ghost before = flat_views(all.take(n as int));
        let mut s = slices.remove(0);
        assert(s == all[n as int]);
        let ghost whole_s = device_views(s@);
        let inner_total = s.len();
        assert(whole_s.len() == inner_total);
        let mut m: usize = 0;
        assert(whole_s.take(0) =~= Seq::<DeviceView>::empty());
        assert(before + whole_s.take(0) =~= before);
        while s.len() > 0
            invariant
                m + s@.len() == whole_s.len(),
                whole_s.len() <= usize::MAX,
                device_views(s@) == whole_s.skip(m as int),
                device_views(acc@) == merge_all(before + whole_s.take(m as int)),
            decreases s@.len(),
        {
            let ghost old_s = s@;
            assert(device_views(old_s)[0] == old_s[0]@);
            let d = s.remove(0);
            assert(d@ == whole_s[m as int]);
            assert(device_views(s@) =~= device_views(old_s).drop_first());
            upsert_device(&mut acc, d);
            let ghost next = before + whole_s.take(m + 1);
            assert(next.drop_last() =~= before + whole_s.take(m as int));
            assert(next.last() == whole_s[m as int]);
            assert(device_views(s@) =~= whole_s.skip(m + 1));
            m += 1;
        }
        assert(whole_s.take(m as int) =~= whole_s);
        proof {
            let f = |v: Vec<Device>| device_views(v@);
            assert(all.take(n + 1).map_values(f) =~= all.take(n as int).map_values(f).push(
                whole_s,
            ));
            all.take(n as int).map_values(f).lemma_flatten_push(whole_s);
        }
        assert(slices@ =~= all.skip(n + 1));
        n += 1;
    }
    assert(all.take(n as int) =~= all);
    acc
}

/// Adds `d` to the address-ordered list `s` unless a device at its address
/// is already there.
pub open spec fn insert_new(s: Seq<DeviceView>, d: DeviceView) -> Seq<DeviceView> {
    if has_ip_at_slot(s, d.ip) {
        s
    } else {
        s.insert(slot(s, d.ip), d)
    }
}

/// All of `ds` added in turn with `insert_new`: the first device at each
/// address wins.
pub open spec fn first_per_ip(ds: Seq<DeviceView>) -> Seq<DeviceView>
    decreases ds.len(),
{
    if ds.len() == 0 {
        Seq::empty()
    } else {
        insert_new(first_per_ip(ds.drop_last()), ds.last())
    }
}

/// Adds `d` to `v` as `insert_new` says.
pub fn insert_if_absent(v: &mut Vec<Device>, d: Device)
    ensures
        device_views(final(v)@) == insert_new(device_views(old(v)@), d@),
{
    let k = find_slot(v, d.ip);
    let ghost old_views = device_views(v@);
    if k < v.len() && v[k].ip == d.ip {
    } else {
        v.insert(k, d);
        assert(device_views(v@) =~= old_views.insert(k as int, d@));
    }
}

// ---------------------------------------------------------------------------
// What merging promises
// ---------------------------------------------------------------------------

/// Addresses strictly increase along `s`: one device per address, in order.
pub open spec fn strictly_sorted_by_ip(s: Seq<DeviceView>) -> bool {
    forall|a: int, b: int| 0 <= a < b < s.len() ==> s[a].ip < s[b].ip
}

/// Some device of `s` is at `ip`.
pub open spec fn has_ip(s: Seq<DeviceView>, ip: u32) -> bool {
    exists|i: int| 0 <= i < s.len() && #[trigger] s[i].ip == ip
}

/// The devices of one address folded together in order.
pub open spec fn fold_group(g: Seq<DeviceView>) -> DeviceView
    recommends
        g.len() > 0,
    decreases g.len(),
{
    if g.len() <= 1 {
        g[0]
    } else {
        merged(fold_group(g.drop_last()), g.last())
    }
}

/// The slot of `ip` is after every device below `ip` and at the first one
/// that is not.
proof fn lemma_first_not_below(s: Seq<DeviceView>, ip: u32, i: int)
    requires
        0 <= i <= s.len(),
    ensures
        i <= first_not_below(s, ip, i) <= s.len(),
        forall|m: int| i <= m < first_not_below(s, ip, i) ==> s[m].ip < ip,
        first_not_below(s, ip, i) < s.len() ==> s[first_not_below(s, ip, i)].ip >= ip,
    decreases s.len() - i,
{
    if i < s.len() && s[i].ip < ip {
        lemma_first_not_below(s, ip, i + 1);
    }
}

/// `x`, which is at `ip`, put in the address-ordered list `s`: in place of
/// the device at `ip` if there is one, inserted in order otherwise.
pub open spec fn place(s: Seq<DeviceView>, ip: u32, x: DeviceView) -> Seq<DeviceView> {
    if has_ip_at_slot(s, ip) {
        s.update(slot(s, ip), x)
    } else {
        s.insert(slot(s, ip), x)
    }
}

/// Placing a device keeps the list strictly ordered, adds its address and
/// keeps the others.
pub proof fn lemma_place(s: Seq<DeviceView>, ip: u32, x: DeviceView)
    requires
        strictly_sorted_by_ip(s),
        x.ip == ip,
    ensures
        strictly_sorted_by_ip(place(s, ip, x)),
        forall|ip2: u32| has_ip(place(s, ip, x), ip2) <==> (has_ip(s, ip2) || ip2 == ip),
        has_ip_at_slot(s, ip) <==> has_ip(s, ip),
        0 <= slot(s, ip) <= s.len(),
{
    lemma_first_not_below(s, ip, 0);
    let k = slot(s, ip);
    let r = place(s, ip, x);
    if has_ip_at_slot(s, ip) {
        assert(r[k].ip == s[k].ip);
        assert forall|ip2: u32| has_ip(r, ip2) <==> (has_ip(s, ip2) || ip2 == ip) by {
            if has_ip(s, ip2) {
                let i = choose|i: int| 0 <= i < s.len() && #[trigger] s[i].ip == ip2;
                assert(r[i].ip == ip2);
            }
            if has_ip(r, ip2) {
                let i = choose|i: int| 0 <= i < r.len() && #[trigger] r[i].ip == ip2;
                assert(s[i].ip == ip2);
            }
            if ip2 == ip {
                assert(r[k].ip == ip2);
            }
        }
    } else {
        assert(!has_ip(s, ip)) by {
            if has_ip(s, ip) {
                let i = choose|i: int| 0 <= i < s.len() && #[trigger] s[i].ip == ip;
                if i < k {
                } else if i > k {
                    assert(s[k].ip < s[i].ip);
                }
            }
        }
        assert forall|a: int, b: int| 0 <= a < b < r.len() implies r[a].ip < r[b].ip by {
            if b < k {
            } else if b == k {
            } else if a < k {
                assert(s[a].ip < ip);
                if k < s.len() {
                    assert(s[k].ip > ip);
                    if b - 1 > k {
                        assert(s[k].ip < s[b - 1].ip);
                    }
                }
            } else if a == k {
                assert(s[k].ip > ip);
                if b - 1 > k {
                    assert(s[k].ip < s[b - 1].ip);
                }
            } else {
                assert(s[a - 1].ip < s[b - 1].ip);
            }
        }
        assert forall|ip2: u32| has_ip(r, ip2) <==> (has_ip(s, ip2) || ip2 == ip) by {
            if has_ip(s, ip2) {
                let i = choose|i: int| 0 <= i < s.len() && #[trigger] s[i].ip == ip2;
                if i < k {
                    assert(r[i].ip == ip2);
                } else {
                    assert(r[i + 1].ip == ip2);
                }
            }
            if has_ip(r, ip2) {
                let i = choose|i: int| 0 <= i < r.len() && #[trigger] r[i].ip == ip2;
                if i < k {
                    assert(s[i].ip == ip2);
                } else if i > k {
                    assert(s[i - 1].ip == ip2);
                }
            }
            if ip2 == ip {
                assert(r[k].ip == ip2);
            }
        }
    }
}

/// Adding a device keeps the list strictly ordered, adds its address and
/// keeps the others.
proof fn lemma_upsert(s: Seq<DeviceView>, d: DeviceView)
    requires
        strictly_sorted_by_ip(s),
    ensures
        strictly_sorted_by_ip(upsert(s, d)),
        forall|ip: u32| has_ip(upsert(s, d), ip) <==> (has_ip(s, ip) || ip == d.ip),
        has_ip_at_slot(s, d.ip) <==> has_ip(s, d.ip),
{
    let x = if has_ip_at_slot(s, d.ip) {
        merged(s[slot(s, d.ip)], d)
    } else {
        d
    };
    lemma_place(s, d.ip, x);
    assert(upsert(s, d) == place(s, d.ip, x));
}

/// With no device at an address, there is nothing to keep of it.
proof fn lemma_filter_absent(s: Seq<DeviceView>, ip: u32)
    requires
        !has_ip(s, ip),
    ensures
        s.filter(at_ip(ip)) == Seq::<DeviceView>::empty(),
    decreases s.len(),
{
    reveal(Seq::filter);
    if s.len() > 0 {
        assert(!has_ip(s.drop_last(), ip)) by {
            if has_ip(s.drop_last(), ip) {
                let i = choose|i: int|
                    0 <= i < s.drop_last().len() && #[trigger] s.drop_last()[i].ip == ip;
                assert(s[i].ip == ip);
            }
        }
        lemma_filter_absent(s.drop_last(), ip);
        assert(s[s.len() - 1].ip != ip);
    }
}

/// Merging several lists yields one device per address, in ascending
/// order; the addresses are those of the devices given; and the device at
/// each address is the merge, in the order given, of all devices found at
/// that address.
pub proof fn lemma_merge_all(ds: Seq<DeviceView>)
    ensures
        strictly_sorted_by_ip(merge_all(ds)),
        forall|ip: u32| has_ip(merge_all(ds), ip) <==> has_ip(ds, ip),
        forall|i: int|
            0 <= i < merge_all(ds).len() ==> merge_all(ds)[i] == fold_group(
                #[trigger] ds.filter(at_ip(merge_all(ds)[i].ip)),
            ),
    decreases ds.len(),
{
    reveal(Seq::filter);
    if ds.len() > 0 {
        let prev = ds.drop_last();
        let d = ds.last();
        let acc = merge_all(prev);
        lemma_merge_all(prev);
        lemma_upsert(acc, d);
        let r = merge_all(ds);
        assert(r == upsert(acc, d));
        assert forall|ip: u32| has_ip(r, ip) <==> has_ip(ds, ip) by {
            if has_ip(ds, ip) {
                let j = choose|j: int| 0 <= j < ds.len() && #[trigger] ds[j].ip == ip;
                if j < ds.len() - 1 {
                    assert(prev[j].ip == ip);
                }
            }
            if has_ip(prev, ip) {
                let j = choose|j: int| 0 <= j < prev.len() && #[trigger] prev[j].ip == ip;
                assert(ds[j].ip == ip);
            }
            if ip == d.ip {
                assert(ds[ds.len() - 1].ip == ip);
            }
        }
        let k = slot(acc, d.ip);
        lemma_first_not_below(acc, d.ip, 0);
        assert forall|i: int| 0 <= i < r.len() implies r[i] == fold_group(
            #[trigger] ds.filter(at_ip(r[i].ip)),
        ) by {
            let ip = r[i].ip;
            let g = ds.filter(at_ip(ip));
            assert(g == if ip == d.ip {
                prev.filter(at_ip(ip)).push(d)
            } else {
                prev.filter(at_ip(ip))
            });
            if has_ip_at_slot(acc, d.ip) {
                if i == k {
                    assert(g.drop_last() =~= prev.filter(at_ip(ip)));
                    assert(acc[k] == fold_group(prev.filter(at_ip(acc[k].ip))));
                    if prev.filter(at_ip(ip)).len() == 0 {
                        assert(acc[k].ip == ip);
                        assert(has_ip(prev, ip)) by {
                            assert(has_ip(acc, ip));
                        }
                        let j = choose|j: int| 0 <= j < prev.len() && #[trigger] prev[j].ip == ip;
                        prev.lemma_filter_contains(at_ip(ip), j);
                    }
                } else {
                    assert(acc[i].ip != d.ip);
                    assert(r[i] == acc[i]);
                }
            } else {
                if i == k {
                    assert(!has_ip(prev, d.ip));
                    lemma_filter_absent(prev, d.ip);
                    assert(g =~= seq![d]);
                } else if i < k {
                    assert(r[i] == acc[i]);
                    assert(acc[i].ip != d.ip);
                } else {
                    assert(r[i] == acc[i - 1]);
                    assert(acc[i - 1].ip != d.ip);
                }
            }
        }
    }
}

/// Keeping the first device per address yields one device per address, in
/// ascending order; the addresses are those of the devices given; and the
/// device kept at each address is the first one given for it.
pub proof fn lemma_first_per_ip(ds: Seq<DeviceView>)
    ensures
        strictly_sorted_by_ip(first_per_ip(ds)),
        forall|ip: u32| has_ip(first_per_ip(ds), ip) <==> has_ip(ds, ip),
        forall|i: int|
            0 <= i < first_per_ip(ds).len() ==> first_per_ip(ds)[i] == (#[trigger] ds.filter(
                at_ip(first_per_ip(ds)[i].ip),
            ))[0],
    decreases ds.len(),
{
    reveal(Seq::filter);
    if ds.len() > 0 {
        let prev = ds.drop_last();
        let d = ds.last();
        let acc = first_per_ip(prev);
        lemma_first_per_ip(prev);
        lemma_upsert(acc, d);
        lemma_first_not_below(acc, d.ip, 0);
        let r = first_per_ip(ds);
        let k = slot(acc, d.ip);
        if has_ip_at_slot(acc, d.ip) {
            assert(r == acc);
        } else {
            assert(r == upsert(acc, d));
        }
        assert(strictly_sorted_by_ip(r));
        assert forall|ip: u32| has_ip(r, ip) <==> has_ip(ds, ip) by {
            if has_ip(ds, ip) {
                let j = choose|j: int| 0 <= j < ds.len() && #[trigger] ds[j].ip == ip;
                if j < ds.len() - 1 {
                    assert(prev[j].ip == ip);
                }
            }
            if has_ip(prev, ip) {
                let j = choose|j: int| 0 <= j < prev.len() && #[trigger] prev[j].ip == ip;
                assert(ds[j].ip == ip);
            }
            if ip == d.ip {
                assert(ds[ds.len() - 1].ip == ip);
                if has_ip_at_slot(acc, d.ip) {
                    assert(r[k].ip == ip);
                }
            }
        }
        assert forall|i: int| 0 <= i < r.len() implies r[i] == (#[trigger] ds.filter(
            at_ip(r[i].ip),
        ))[0] by {
            let ip = r[i].ip;
            let g = ds.filter(at_ip(ip));
            assert(g == if ip == d.ip {
                prev.filter(at_ip(ip)).push(d)
            } else {
                prev.filter(at_ip(ip))
            });
            if has_ip_at_slot(acc, d.ip) {
                assert(r[i] == acc[i]);
                if ip == d.ip {
                    assert(has_ip(prev, ip)) by {
                        assert(has_ip(acc, ip));
                    }
                    let j = choose|j: int| 0 <= j < prev.len() && #[trigger] prev[j].ip == ip;
                    prev.lemma_filter_contains(at_ip(ip), j);
                }
            } else {
                if i == k {
                    assert(!has_ip(prev, d.ip));
                    lemma_filter_absent(prev, d.ip);
                    assert(g =~= seq![d]);
                } else if i < k {
                    assert(r[i] == acc[i]);
                    assert(acc[i].ip != d.ip);
                } else {
                    assert(r[i] == acc[i - 1]);
                    assert(acc[i - 1].ip != d.ip);
                }
            }
        }
    }
}

// ---------------------------------------------------------------------------
// Ordering by address
// ---------------------------------------------------------------------------

/// Addresses never decrease along `s`.
pub open spec fn sorted_by_ip(s: Seq<DeviceView>) -> bool {
    forall|a: int, b: int| 0 <= a < b < s.len() ==> s[a].ip <= s[b].ip
}

/// The devices at `ip`.
pub open spec fn at_ip(ip: u32) -> spec_fn(DeviceView) -> bool {
    |d: DeviceView| d.ip == ip
}

/// `t` is `s` reordered by address, devices at one address keeping their
/// order (a stable sort).
pub open spec fn stable_sorted_by_ip(s: Seq<DeviceView>, t: Seq<DeviceView>) -> bool {
    &&& sorted_by_ip(t)
    &&& forall|ip: u32| #[trigger] t.filter(at_ip(ip)) == s.filter(at_ip(ip))
}

/// Exchanging neighbours at different addresses keeps the devices of each
/// address in order.
proof fn lemma_swap_keeps_groups(s: Seq<DeviceView>, j: int, ip: u32)
    requires
        0 < j < s.len(),
        s[j - 1].ip != s[j].ip,
    ensures
        s.update(j - 1, s[j]).update(j, s[j - 1]).filter(at_ip(ip)) == s.filter(at_ip(ip)),
{
    let t = s.update(j - 1, s[j]).update(j, s[j - 1]);
    let p = s.take(j - 1);
    let q = s.skip(j + 1);
    let a = s[j - 1];
    let b = s[j];
    assert(s =~= p + seq![a, b] + q);
    assert(t =~= p + seq![b, a] + q);
    let f = at_ip(ip);
    Seq::filter_distributes_over_add(p + seq![a, b], q, f);
    Seq::filter_distributes_over_add(p, seq![a, b], f);
    Seq::filter_distributes_over_add(p + seq![b, a], q, f);
    Seq::filter_distributes_over_add(p, seq![b, a], f);
    reveal_with_fuel(Seq::filter, 3);
    assert(seq![a, b].drop_last() =~= seq![a]);
    assert(seq![b, a].drop_last() =~= seq![b]);
    assert(seq![a].drop_last() =~= Seq::<DeviceView>::empty());
    assert(seq![b].drop_last() =~= Seq::<DeviceView>::empty());
    assert(seq![a, b].filter(f) =~= seq![b, a].filter(f));
}

/// Sorts devices by address, devices at one address keeping their order.
pub fn sort_devices(devices: &mut [Device])
    ensures
        stable_sorted_by_ip(device_views(old(devices)@), device_views(final(devices)@)),
{
    let n = devices.len();
    let ghost orig = device_views(devices@);
    let mut i: usize = 1;
    while i < n
        invariant
            n == devices@.len(),
            1 <= i || n == 0,
            forall|a: int, b: int|
                0 <= a < b < i && b < n ==> device_views(devices@)[a].ip <= device_views(
                    devices@,
                )[b].ip,
            forall|ip: u32| #[trigger]
                device_views(devices@).filter(at_ip(ip)) == orig.filter(at_ip(ip)),
        decreases n - i,
    {
        let mut j: usize = i;
        let ghost x = devices@[i as int].ip;
        while j > 0 && devices[j - 1].ip > devices[j].ip
            invariant
                n == devices@.len(),
                0 <= j <= i < n,
                devices@[j as int].ip == x,
                forall|a: int, b: int|
                    0 <= a < b < j ==> device_views(devices@)[a].ip <= device_views(
                        devices@,
                    )[b].ip,
                forall|a: int, b: int|
                    j < a < b <= i ==> device_views(devices@)[a].ip <= device_views(
                        devices@,
                    )[b].ip,
                forall|b: int| j < b <= i ==> x < device_views(devices@)[b].ip,
                forall|a: int, b: int|
                    0 <= a < j && j < b <= i ==> device_views(devices@)[a].ip <= device_views(
                        devices@,
                    )[b].ip,
                forall|ip: u32| #[trigger]
                    device_views(devices@).filter(at_ip(ip)) == orig.filter(at_ip(ip)),
            decreases j,
        {
            let ghost before = device_views(devices@);
            let left = devices[j - 1].clone();
            let right = devices[j].clone();
            devices[j - 1] = right;
            devices[j] = left;
            proof {
                assert(device_views(devices@) =~= before.update(j - 1, before[j as int]).update(
                    j as int,
                    before[j - 1],
                ));
                assert forall|ip: u32|
                    #[trigger] device_views(devices@).filter(at_ip(ip)) == orig.filter(
                        at_ip(ip),
                    ) by {
                    lemma_swap_keeps_groups(before, j as int, ip);
                }
            }
            j -= 1;
        }
        assert forall|a: int, b: int|
            0 <= a < b < i + 1 && b < n implies device_views(devices@)[a].ip <= device_views(
            devices@,
        )[b].ip by {
            let v = device_views(devices@);
            if b < j {
            } else if b == j {
                if a < j - 1 {
                    assert(v[a].ip <= v[j - 1].ip);
                }
            } else if a < j {
            } else if a == j {
            } else {
            }
        }
        i += 1;
    }
}

/// Text field `k` of a device: the URL (0), the server header (1), the
/// SSDP server (2), the hardware address (3), the name (4), the product
/// number (5), the product type (6), the serial number (7) and the
/// firmware (8).
pub open spec fn text_field(d: DeviceView, k: int) -> Seq<char> {
    if k == 0 {
        d.url
    } else if k == 1 {
        d.hints.server_header
    } else if k == 2 {
        d.hints.ssdp_server
    } else if k == 3 {
        d.hints.mac
    } else if k == 4 {
        d.hints.device_name
    } else if k == 5 {
        d.hints.prod_nbr
    } else if k == 6 {
        d.hints.prod_type
    } else if k == 7 {
        d.hints.serial_number
    } else {
        d.hints.firmware
    }
}

/// `v` is what the devices `g` give for text field `k` when the first
/// non-empty one wins: empty exactly when every one is empty, and
/// otherwise the value of the first device that has one.
pub open spec fn first_text(g: Seq<DeviceView>, k: int, v: Seq<char>) -> bool {
    &&& v.len() == 0 <==> forall|j: int| 0 <= j < g.len() ==> (#[trigger] text_field(g[j], k)).len() == 0
    &&& v.len() > 0 ==> exists|j: int|
        0 <= j < g.len() && text_field(g[j], k) == v && forall|m: int|
            0 <= m < j ==> (#[trigger] text_field(g[m], k)).len() == 0
}

/// Folding devices together keeps, for every text field, the first
/// non-empty value in the order given, and sets the CGI flag when any
/// device has it.
proof fn lemma_fold_text(g: Seq<DeviceView>, k: int)
    requires
        g.len() > 0,
        0 <= k < 9,
    ensures
        first_text(g, k, text_field(fold_group(g), k)),
        fold_group(g).hints.axis_cgi <==> exists|j: int| 0 <= j < g.len() && (#[trigger] g[j]).hints.axis_cgi,
    decreases g.len(),
{
    if g.len() == 1 {
        assert(fold_group(g) == g[0]);
    } else {
        let prev = g.drop_last();
        lemma_fold_text(prev, k);
        let f = fold_group(prev);
        let last = g.last();
        let r = fold_group(g);
        assert(r == merged(f, last));
        let a = text_field(f, k);
        let b = text_field(last, k);
        let v = text_field(r, k);
        assert(v == a || v == b);
        assert(a.len() > 0 ==> v == a);
        assert(a.len() == 0 && b.len() > 0 ==> v == b);
        assert(a.len() == 0 && b.len() == 0 ==> v.len() == 0);
        assert forall|j: int| 0 <= j < prev.len() implies #[trigger] prev[j] == g[j] by {}
        if a.len() > 0 {
            let j = choose|j: int|
                0 <= j < prev.len() && text_field(prev[j], k) == a && forall|m: int|
                    0 <= m < j ==> (#[trigger] text_field(prev[m], k)).len() == 0;
            assert(text_field(g[j], k) == v);
            assert forall|m: int| 0 <= m < j implies (#[trigger] text_field(g[m], k)).len() == 0 by {
                assert(text_field(prev[m], k).len() == 0);
            }
        } else {
            assert forall|m: int| 0 <= m < prev.len() implies (#[trigger] text_field(g[m], k)).len()
                == 0 by {
                assert(text_field(prev[m], k).len() == 0);
            }
            if b.len() > 0 {
                assert(text_field(g[g.len() - 1], k) == v);
            }
        }
        assert(r.hints.axis_cgi == (f.hints.axis_cgi || last.hints.axis_cgi));
        if exists|j: int| 0 <= j < g.len() && (#[trigger] g[j]).hints.axis_cgi {
            let j = choose|j: int| 0 <= j < g.len() && (#[trigger] g[j]).hints.axis_cgi;
            if j < prev.len() {
                assert(prev[j].hints.axis_cgi);
            }
        }
        if f.hints.axis_cgi {
            let j = choose|j: int| 0 <= j < prev.len() && (#[trigger] prev[j]).hints.axis_cgi;
            assert(g[j].hints.axis_cgi);
        }
        if last.hints.axis_cgi {
            assert(g[g.len() - 1].hints.axis_cgi);
        }
    }
}

/// After merging, the device at each address holds, for its URL and each
/// text hint (server header, SSDP server, hardware address, name, product
/// number, product type, serial number, firmware), the first non-empty
/// value among the devices given at that address, in the order given, and
/// is empty there only when all of them are; its CGI flag is set exactly
/// when some device given at that address has it.
pub proof fn lemma_merge_text(ds: Seq<DeviceView>)
    ensures
        forall|i: int, k: int|
            0 <= i < merge_all(ds).len() && 0 <= k < 9 ==> first_text(
                ds.filter(at_ip(merge_all(ds)[i].ip)),
                k,
                #[trigger] text_field(merge_all(ds)[i], k),
            ),
        forall|i: int|
            0 <= i < merge_all(ds).len() ==> ((#[trigger] merge_all(ds)[i]).hints.axis_cgi
                <==> exists|j: int|
                0 <= j < ds.len() && ds[j].ip == merge_all(ds)[i].ip && (#[trigger] ds[j]).hints.axis_cgi),
{
    broadcast use vstd::seq_lib::group_filter_ensures;

    lemma_merge_all(ds);
    let r = merge_all(ds);
    assert forall|i: int, k: int| 0 <= i < r.len() && 0 <= k < 9 implies first_text(
        ds.filter(at_ip(r[i].ip)),
        k,
        #[trigger] text_field(r[i], k),
    ) by {
        let g = ds.filter(at_ip(r[i].ip));
        lemma_merge_group_nonempty(ds, r[i].ip);
        lemma_fold_text(g, k);
    }
    assert forall|i: int| 0 <= i < r.len() implies ((#[trigger] r[i]).hints.axis_cgi <==> exists|j: int|
        0 <= j < ds.len() && ds[j].ip == r[i].ip && (#[trigger] ds[j]).hints.axis_cgi) by {
        let ip = r[i].ip;
        let f = at_ip(ip);
        let g = ds.filter(f);
        lemma_merge_group_nonempty(ds, ip);
        lemma_fold_text(g, 0);
        if exists|j: int| 0 <= j < g.len() && (#[trigger] g[j]).hints.axis_cgi {
            let j = choose|j: int| 0 <= j < g.len() && (#[trigger] g[j]).hints.axis_cgi;
            assert(f(g[j]));
            assert(g.contains(g[j]));
            ds.lemma_filter_contains_rev(f, g[j]);
            let m = choose|m: int| 0 <= m < ds.len() && ds[m] == g[j];
            assert(ds[m].ip == ip && ds[m].hints.axis_cgi);
        }
        if exists|j: int| 0 <= j < ds.len() && ds[j].ip == ip && (#[trigger] ds[j]).hints.axis_cgi {
            let j = choose|j: int| 0 <= j < ds.len() && ds[j].ip == ip && (#[trigger] ds[j]).hints.axis_cgi;
            assert(f(ds[j]));
            assert(g.contains(ds[j]));
            let m = choose|m: int| 0 <= m < g.len() && g[m] == ds[j];
            assert(g[m].hints.axis_cgi);
        }
    }
}

/// Some device is given at every address of the merged list.
proof fn lemma_merge_group_nonempty(ds: Seq<DeviceView>, ip: u32)
    requires
        has_ip(merge_all(ds), ip),
    ensures
        ds.filter(at_ip(ip)).len() > 0,
{
    broadcast use vstd::seq_lib::group_filter_ensures;

    lemma_merge_all(ds);
    assert(has_ip(ds, ip));
    let j = choose|j: int| 0 <= j < ds.len() && #[trigger] ds[j].ip == ip;
    assert(at_ip(ip)(ds[j]));
    assert(ds.filter(at_ip(ip)).contains(ds[j]));
}

} // verus!
