//! Subnet scanning: the hosts of a network, and the devices that the
//! answers to the HTTP probes of open ports show.  Connecting and probing
//! are left to the caller, which hands over what each probe found.

use vstd::prelude::*;
use crate::ipv4::{Ipv4Net, hosts, hosts_first, hosts_last, lemma_host_bounds, netmask_of};
use crate::model::{
    Confidence, Device, DeviceView, append_new, device_views, find_slot, has_ip, has_ip_at_slot,
    http_url, https_url, https_url_of, lemma_place, new_device, place, slot, strictly_sorted_by_ip,
    unique_strings,
};
use crate::probe::{HttpResult, HttpResultView};
use crate::text::views;
use crate::enrich::{first_filled, lemma_first_filled};
use crate::model::{fill, lemma_append_new};

verus! {

broadcast use vstd::string::group_string_axioms;

/// Expands a network into all its hosts: the addresses between the network
/// and broadcast addresses, both left out for prefixes shorter than /31;
/// both addresses of a /31; the single address of a /32.
pub fn expand_cidr(net: Ipv4Net) -> (r: Vec<u32>)
    requires
        net.wf(),
    ensures
        r@ == hosts(net),
{
    proof {
        lemma_host_bounds(net);
    }
    let mask = netmask_of(net.prefix_len);
    let network = net.addr & mask;
    let broadcast = net.addr | !mask;
    let (first, last) = if net.prefix_len < 31 {
        (network + 1, broadcast - 1)
    } else {
        (network, broadcast)
    };
    assert(first == hosts_first(net) && last == hosts_last(net));
    let mut out: Vec<u32> = Vec::new();
    let mut ip = first;
    loop
        invariant_except_break
            first <= ip <= last,
            out@ == Seq::new((ip - first) as nat, |i: int| (first + i) as u32),
        ensures
            out@ == Seq::new((last - first + 1) as nat, |i: int| (first + i) as u32),
        decreases last - ip,
    {
        out.push(ip);
        if ip == last {
            assert(out@ =~= Seq::new((last - first + 1) as nat, |i: int| (first + i) as u32));
            break;
        }
        assert(out@ =~= Seq::new((ip + 1 - first) as nat, |i: int| (first + i) as u32));
        ip = ip + 1;
    }
    out
}

// ---------------------------------------------------------------------------
// Collecting the answers
// ---------------------------------------------------------------------------

/// `d` with what a probe of `port` found: the port added if new, the
/// server header and title taken if `d` has none, the markers united.
pub open spec fn absorb(d: DeviceView, port: u16, pr: HttpResultView) -> DeviceView {
    DeviceView {
        open_ports: if d.open_ports.contains(port) {
            d.open_ports
        } else {
            d.open_ports.push(port)
        },
        hints: crate::model::HintsView {
            server_header: if pr.server_header.len() > 0 && d.hints.server_header.len() == 0 {
                pr.server_header
            } else {
                d.hints.server_header
            },
            device_name: if pr.title.len() > 0 && d.hints.device_name.len() == 0 {
                pr.title
            } else {
                d.hints.device_name
            },
            body_markers: append_new(d.hints.body_markers, pr.body_markers),
            ..d.hints
        },
        ..d
    }
}

/// Adds what the probe of `port` at `ip` found to the address-ordered list
/// `s`, starting a device found by the subnet scan for a new address.
pub open spec fn scan_step(s: Seq<DeviceView>, ip: u32, port: u16, pr: HttpResultView) -> Seq<
    DeviceView,
> {
    if has_ip_at_slot(s, ip) {
        s.update(slot(s, ip), absorb(s[slot(s, ip)], port, pr))
    } else {
        s.insert(slot(s, ip), absorb(new_device(ip, "subnet"@), port, pr))
    }
}

/// All findings added in turn to an empty list.
pub open spec fn scan_all(hits: Seq<(u32, u16, HttpResult)>) -> Seq<DeviceView>
    decreases hits.len(),
{
    if hits.len() == 0 {
        Seq::empty()
    } else {
        let h = hits.last();
        scan_step(scan_all(hits.drop_last()), h.0, h.1, h.2@)
    }
}

/// `d` with its URL switched to HTTPS when port 443 is open.
pub open spec fn prefer_https(d: DeviceView) -> DeviceView {
    if d.open_ports.contains(443) {
        DeviceView { url: https_url(d.ip), ..d }
    } else {
        d
    }
}

/// Switches the URL of every device with port 443 open to HTTPS.
pub fn apply_https_preference(devices: &mut Vec<Device>)
    ensures
        device_views(final(devices)@) == device_views(old(devices)@).map_values(
            |d: DeviceView| prefer_https(d),
        ),
{
    let ghost orig = device_views(devices@);
    let mut i: usize = 0;
    while i < devices.len()
        invariant
            i <= devices@.len(),
            orig.len() == devices@.len(),
            forall|k: int| 0 <= k < i ==> (#[trigger] devices@[k])@ == prefer_https(orig[k]),
            forall|k: int| i <= k < devices@.len() ==> (#[trigger] devices@[k])@ == orig[k],
        decreases devices@.len() - i,
    {
        let mut has443 = false;
        let mut j: usize = 0;
        while j < devices[i].open_ports.len()
            invariant
                i < devices@.len(),
                j <= devices@[i as int].open_ports@.len(),
                has443 == exists|m: int| 0 <= m < j && devices@[i as int].open_ports@[m] == 443,
            decreases devices@[i as int].open_ports@.len() - j,
        {
            if devices[i].open_ports[j] == 443 {
                has443 = true;
            }
            j += 1;
        }
        assert(has443 == devices@[i as int].open_ports@.contains(443));
        if has443 {
            let url = https_url_of(devices[i].ip);
            devices[i].url = url;
        }
        i += 1;
    }
    assert(device_views(devices@) =~= orig.map_values(|d: DeviceView| prefer_https(d)));
}

/// The devices that a subnet scan found: one per address, in ascending
/// order, with the ports probed and what their answers showed, the URL
/// switched to HTTPS for port 443 when `prefer_https` is set.
pub open spec fn scan_devices(hits: Seq<(u32, u16, HttpResult)>, https: bool) -> Seq<DeviceView> {
    if https {
        scan_all(hits).map_values(|d: DeviceView| prefer_https(d))
    } else {
        scan_all(hits)
    }
}

/// Some port answered at `ip`.
pub open spec fn hit_at(hits: Seq<(u32, u16, HttpResult)>, ip: u32) -> bool {
    exists|i: int| 0 <= i < hits.len() && #[trigger] hits[i].0 == ip
}

/// The findings added in turn give one device per address, in ascending
/// order, at exactly the addresses where some port answered.
proof fn lemma_scan_all(hits: Seq<(u32, u16, HttpResult)>)
    ensures
        strictly_sorted_by_ip(scan_all(hits)),
        forall|ip: u32| has_ip(scan_all(hits), ip) <==> hit_at(hits, ip),
    decreases hits.len(),
{
    if hits.len() > 0 {
        let prev = hits.drop_last();
        let h = hits.last();
        let acc = scan_all(prev);
        lemma_scan_all(prev);
        let x = if has_ip_at_slot(acc, h.0) {
            absorb(acc[slot(acc, h.0)], h.1, h.2@)
        } else {
            absorb(new_device(h.0, "subnet"@), h.1, h.2@)
        };
        lemma_place(acc, h.0, x);
        assert(scan_all(hits) == place(acc, h.0, x));
        assert forall|ip: u32| hit_at(hits, ip) <==> (hit_at(prev, ip) || ip == h.0) by {
            if hit_at(hits, ip) {
                let j = choose|j: int| 0 <= j < hits.len() && #[trigger] hits[j].0 == ip;
                if j < hits.len() - 1 {
                    assert(prev[j].0 == ip);
                }
            }
            if hit_at(prev, ip) {
                let j = choose|j: int| 0 <= j < prev.len() && #[trigger] prev[j].0 == ip;
                assert(hits[j].0 == ip);
            }
            if ip == h.0 {
                assert(hits[hits.len() - 1].0 == ip);
            }
        }
    }
}

/// Port `p` answered at `ip`.
pub open spec fn port_hit(hits: Seq<(u32, u16, HttpResult)>, ip: u32, p: u16) -> bool {
    exists|j: int| #![trigger hits[j]] 0 <= j < hits.len() && hits[j].0 == ip && hits[j].1 == p
}

/// A device of a scan: found by the subnet scan, with a plain HTTP URL, no
/// confidence, none of the evidence that other methods give, and as open
/// ports each port that answered at its address, once.
pub open spec fn scan_entry(d: DeviceView, hits: Seq<(u32, u16, HttpResult)>) -> bool {
    &&& d.methods == seq!["subnet"@]
    &&& d.url == http_url(d.ip)
    &&& d.confidence == Confidence::NoEvidence
    &&& d.hints.ssdp_server.len() == 0
    &&& d.hints.mac.len() == 0
    &&& !d.hints.axis_cgi
    &&& d.hints.prod_nbr.len() == 0
    &&& d.hints.prod_type.len() == 0
    &&& d.hints.serial_number.len() == 0
    &&& d.hints.firmware.len() == 0
    &&& d.open_ports.no_duplicates()
    &&& forall|p: u16| d.open_ports.contains(p) <==> port_hit(hits, d.ip, p)
}

/// Every device that the findings give is a scan entry.
proof fn lemma_scan_entries(hits: Seq<(u32, u16, HttpResult)>)
    ensures
        forall|i: int| 0 <= i < scan_all(hits).len() ==> scan_entry(#[trigger] scan_all(hits)[i], hits),
    decreases hits.len(),
{
    if hits.len() > 0 {
        let prev = hits.drop_last();
        let h = hits.last();
        let acc = scan_all(prev);
        lemma_scan_entries(prev);
        lemma_scan_all(prev);
        let present = has_ip_at_slot(acc, h.0);
        let k = slot(acc, h.0);
        let base = if present {
            acc[k]
        } else {
            new_device(h.0, "subnet"@)
        };
        let x = absorb(base, h.1, h.2@);
        lemma_place(acc, h.0, x);
        let r = scan_all(hits);
        assert(r == place(acc, h.0, x));
        assert forall|ip: u32, p: u16| ip != h.0 implies (port_hit(hits, ip, p) <==> port_hit(
            prev,
            ip,
            p,
        )) by {
            if port_hit(hits, ip, p) {
                let j = choose|j: int| #![trigger hits[j]] 0 <= j < hits.len() && hits[j].0 == ip
                    && hits[j].1 == p;
                assert(prev[j] == hits[j]);
            }
            if port_hit(prev, ip, p) {
                let j = choose|j: int| #![trigger prev[j]] 0 <= j < prev.len() && prev[j].0 == ip
                    && prev[j].1 == p;
                assert(hits[j] == prev[j]);
            }
        }
        assert forall|p: u16| port_hit(hits, h.0, p) <==> (port_hit(prev, h.0, p) || p == h.1) by {
            if port_hit(hits, h.0, p) {
                let j = choose|j: int| #![trigger hits[j]] 0 <= j < hits.len() && hits[j].0 == h.0
                    && hits[j].1 == p;
                if j < prev.len() {
                    assert(prev[j] == hits[j]);
                }
            }
            if port_hit(prev, h.0, p) {
                let j = choose|j: int| #![trigger prev[j]] 0 <= j < prev.len() && prev[j].0 == h.0
                    && prev[j].1 == p;
                assert(hits[j] == prev[j]);
            }
            if p == h.1 {
                assert(hits[hits.len() - 1] == h);
            }
        }
        if !present {
            assert(!has_ip(acc, h.0));
            assert forall|p: u16| !port_hit(prev, h.0, p) by {
                if port_hit(prev, h.0, p) {
                    let j = choose|j: int| #![trigger prev[j]] 0 <= j < prev.len() && prev[j].0
                        == h.0 && prev[j].1 == p;
                    assert(hit_at(prev, h.0));
                }
            }
            assert(base.open_ports =~= Seq::<u16>::empty());
        } else {
            assert(scan_entry(acc[k], prev));
        }
        assert(scan_entry(x, hits)) by {
            if base.open_ports.contains(h.1) {
            } else {
                assert forall|p: u16| x.open_ports.contains(p) <==> (base.open_ports.contains(p)
                    || p == h.1) by {
                    if x.open_ports.contains(p) {
                        let m = choose|m: int| 0 <= m < x.open_ports.len() && x.open_ports[m] == p;
                        if m < base.open_ports.len() {
                            assert(base.open_ports[m] == p);
                        }
                    }
                    if base.open_ports.contains(p) {
                        let m = choose|m: int| 0 <= m < base.open_ports.len() && base.open_ports[m]
                            == p;
                        assert(x.open_ports[m] == p);
                    }
                    if p == h.1 {
                        assert(x.open_ports[x.open_ports.len() - 1] == p);
                    }
                }
            }
        }
        assert forall|i: int| 0 <= i < r.len() implies scan_entry(#[trigger] r[i], hits) by {
            if present {
                if i != k {
                    assert(r[i] == acc[i]);
                    assert(acc[i].ip != h.0) by {
                        if i < k {
                            assert(acc[i].ip < acc[k].ip);
                        } else {
                            assert(acc[k].ip < acc[i].ip);
                        }
                    }
                    assert(scan_entry(acc[i], prev));
                }
            } else {
                if i < k {
                    assert(r[i] == acc[i]);
                    assert(acc[i].ip != h.0) by {
                        assert(!has_ip(acc, h.0));
                    }
                    assert(scan_entry(acc[i], prev));
                } else if i > k {
                    assert(r[i] == acc[i - 1]);
                    assert(acc[i - 1].ip != h.0) by {
                        assert(!has_ip(acc, h.0));
                    }
                    assert(scan_entry(acc[i - 1], prev));
                }
            }
        }
    }
}

/// A device of a scan that preferred HTTPS or not: a scan entry but for its
/// URL, which is the HTTPS one when HTTPS is preferred and port 443
/// answered, the plain HTTP one otherwise.
pub open spec fn scan_result_entry(d: DeviceView, hits: Seq<(u32, u16, HttpResult)>, https: bool) -> bool {
    &&& scan_entry(DeviceView { url: http_url(d.ip), ..d }, hits)
    &&& d.url == if https && d.open_ports.contains(443) {
        https_url(d.ip)
    } else {
        http_url(d.ip)
    }
}

/// The devices of a subnet scan are one per address, in ascending order of
/// address, and are at exactly the addresses where some probed port
/// answered; each was found by the subnet scan, holds each port that
/// answered at its address once, carries no evidence of the other methods,
/// and has the HTTPS URL exactly when HTTPS is preferred and port 443
/// answered.
pub proof fn lemma_scan_devices(hits: Seq<(u32, u16, HttpResult)>, https: bool)
    ensures
        strictly_sorted_by_ip(scan_devices(hits, https)),
        forall|ip: u32| has_ip(scan_devices(hits, https), ip) <==> hit_at(hits, ip),
        forall|i: int|
            0 <= i < scan_devices(hits, https).len() ==> scan_result_entry(
                #[trigger] scan_devices(hits, https)[i],
                hits,
                https,
            ),
{
    lemma_scan_all(hits);
    lemma_scan_entries(hits);
    let a = scan_all(hits);
    let r = scan_devices(hits, https);
    assert(r.len() == a.len());
    assert forall|i: int| 0 <= i < r.len() implies r[i].ip == a[i].ip by {}
    assert forall|ip: u32| has_ip(r, ip) <==> has_ip(a, ip) by {
        if has_ip(r, ip) {
            let i = choose|i: int| 0 <= i < r.len() && #[trigger] r[i].ip == ip;
            assert(a[i].ip == ip);
        }
        if has_ip(a, ip) {
            let i = choose|i: int| 0 <= i < a.len() && #[trigger] a[i].ip == ip;
            assert(r[i].ip == ip);
        }
    }
    assert forall|i: int| 0 <= i < r.len() implies scan_result_entry(#[trigger] r[i], hits, https) by {
        assert(scan_entry(a[i], hits));
        assert(DeviceView { url: http_url(r[i].ip), ..r[i] } == a[i]);
    }
}

/// The server headers of the answers at `ip`, in the order they came.
pub open spec fn servers_at(hits: Seq<(u32, u16, HttpResult)>, ip: u32) -> Seq<Seq<char>>
    decreases hits.len(),
{
    if hits.len() == 0 {
        Seq::empty()
    } else if hits.last().0 == ip {
        servers_at(hits.drop_last(), ip).push(hits.last().2@.server_header)
    } else {
        servers_at(hits.drop_last(), ip)
    }
}

/// The page titles of the answers at `ip`, in the order they came.
pub open spec fn titles_at(hits: Seq<(u32, u16, HttpResult)>, ip: u32) -> Seq<Seq<char>>
    decreases hits.len(),
{
    if hits.len() == 0 {
        Seq::empty()
    } else if hits.last().0 == ip {
        titles_at(hits.drop_last(), ip).push(hits.last().2@.title)
    } else {
        titles_at(hits.drop_last(), ip)
    }
}

/// The markers of the answers at `ip`, each new one added in the order
/// they came.
pub open spec fn markers_at(hits: Seq<(u32, u16, HttpResult)>, ip: u32) -> Seq<Seq<char>>
    decreases hits.len(),
{
    if hits.len() == 0 {
        Seq::empty()
    } else if hits.last().0 == ip {
        append_new(markers_at(hits.drop_last(), ip), hits.last().2@.body_markers)
    } else {
        markers_at(hits.drop_last(), ip)
    }
}

/// Some answer at `ip` showed marker `m`.
pub open spec fn marker_hit(hits: Seq<(u32, u16, HttpResult)>, ip: u32, m: Seq<char>) -> bool {
    exists|j: int|
        #![trigger hits[j]]
        0 <= j < hits.len() && hits[j].0 == ip && hits[j].2@.body_markers.contains(m)
}

/// What the answers at the address of `d` showed, as `d` holds it: the
/// first non-empty server header and title, and the markers united.
pub open spec fn scan_evidence(d: DeviceView, hits: Seq<(u32, u16, HttpResult)>) -> bool {
    &&& d.hints.server_header == first_filled(Seq::empty(), servers_at(hits, d.ip))
    &&& d.hints.device_name == first_filled(Seq::empty(), titles_at(hits, d.ip))
    &&& d.hints.body_markers == markers_at(hits, d.ip)
}

/// Without an answer at `ip` there is nothing to collect there.
proof fn lemma_nothing_at(hits: Seq<(u32, u16, HttpResult)>, ip: u32)
    requires
        !hit_at(hits, ip),
    ensures
        servers_at(hits, ip) == Seq::<Seq<char>>::empty(),
        titles_at(hits, ip) == Seq::<Seq<char>>::empty(),
        markers_at(hits, ip) == Seq::<Seq<char>>::empty(),
    decreases hits.len(),
{
    if hits.len() > 0 {
        let prev = hits.drop_last();
        assert(!hit_at(prev, ip)) by {
            if hit_at(prev, ip) {
                let j = choose|j: int| 0 <= j < prev.len() && #[trigger] prev[j].0 == ip;
                assert(hits[j].0 == ip);
            }
        }
        assert(hits[hits.len() - 1].0 != ip);
        lemma_nothing_at(prev, ip);
    }
}

/// The markers collected at `ip` hold no duplicate, and hold exactly the
/// markers that some answer at `ip` showed.
proof fn lemma_markers_at(hits: Seq<(u32, u16, HttpResult)>, ip: u32)
    ensures
        markers_at(hits, ip).no_duplicates(),
        forall|m: Seq<char>| #[trigger] markers_at(hits, ip).contains(m) <==> marker_hit(hits, ip, m),
    decreases hits.len(),
{
    if hits.len() > 0 {
        let prev = hits.drop_last();
        let h = hits.last();
        lemma_markers_at(prev, ip);
        lemma_append_new(markers_at(prev, ip), h.2@.body_markers);
        assert forall|m: Seq<char>| marker_hit(hits, ip, m) <==> (marker_hit(prev, ip, m) || (h.0
            == ip && h.2@.body_markers.contains(m))) by {
            if marker_hit(hits, ip, m) {
                let j = choose|j: int|
                    #![trigger hits[j]]
                    0 <= j < hits.len() && hits[j].0 == ip && hits[j].2@.body_markers.contains(m);
                if j < prev.len() {
                    assert(prev[j] == hits[j]);
                }
            }
            if marker_hit(prev, ip, m) {
                let j = choose|j: int|
                    #![trigger prev[j]]
                    0 <= j < prev.len() && prev[j].0 == ip && prev[j].2@.body_markers.contains(m);
                assert(hits[j] == prev[j]);
            }
            if h.0 == ip && h.2@.body_markers.contains(m) {
                assert(hits[hits.len() - 1] == h);
            }
        }
    }
}

/// Every device that the findings give holds what the answers at its
/// address showed.
proof fn lemma_scan_all_evidence(hits: Seq<(u32, u16, HttpResult)>)
    ensures
        forall|i: int|
            0 <= i < scan_all(hits).len() ==> scan_evidence(#[trigger] scan_all(hits)[i], hits),
    decreases hits.len(),
{
    if hits.len() > 0 {
        let prev = hits.drop_last();
        let h = hits.last();
        let acc = scan_all(prev);
        lemma_scan_all_evidence(prev);
        lemma_scan_all(prev);
        let present = has_ip_at_slot(acc, h.0);
        let k = slot(acc, h.0);
        let base = if present {
            acc[k]
        } else {
            new_device(h.0, "subnet"@)
        };
        let x = absorb(base, h.1, h.2@);
        lemma_place(acc, h.0, x);
        let r = scan_all(hits);
        assert(r == place(acc, h.0, x));
        assert(servers_at(hits, h.0).drop_last() == servers_at(prev, h.0));
        assert(servers_at(hits, h.0).last() == h.2@.server_header);
        assert(titles_at(hits, h.0).drop_last() == titles_at(prev, h.0));
        assert(titles_at(hits, h.0).last() == h.2@.title);
        if !present {
            assert(!has_ip(acc, h.0));
            lemma_nothing_at(prev, h.0);
        } else {
            assert(scan_evidence(acc[k], prev));
        }
        assert(base.ip == h.0);
        assert(scan_evidence(x, hits)) by {
            let s0 = first_filled(Seq::empty(), servers_at(prev, h.0));
            let t0 = first_filled(Seq::empty(), titles_at(prev, h.0));
            assert(base.hints.server_header == s0);
            assert(base.hints.device_name == t0);
            assert(base.hints.body_markers == markers_at(prev, h.0));
            assert(first_filled(Seq::empty(), servers_at(hits, h.0)) == fill(s0, h.2@.server_header));
            assert(first_filled(Seq::empty(), titles_at(hits, h.0)) == fill(t0, h.2@.title));
            if s0.len() == 0 && h.2@.server_header.len() == 0 {
                assert(s0 =~= h.2@.server_header);
            }
            if t0.len() == 0 && h.2@.title.len() == 0 {
                assert(t0 =~= h.2@.title);
            }
        }
        assert forall|i: int| 0 <= i < r.len() implies scan_evidence(#[trigger] r[i], hits) by {
            if r[i].ip != h.0 {
                let j = if present || i < k {
                    i
                } else {
                    i - 1
                };
                assert(r[i] == acc[j]);
                assert(scan_evidence(acc[j], prev));
            } else {
                if present {
                    if i != k {
                        assert(r[i] == acc[i]);
                        if i < k {
                            assert(acc[i].ip < acc[k].ip);
                        } else {
                            assert(acc[k].ip < acc[i].ip);
                        }
                    }
                } else {
                    if i != k {
                        if i < k {
                            assert(r[i] == acc[i]);
                        } else {
                            assert(r[i] == acc[i - 1]);
                        }
                    }
                }
            }
        }
    }
}

/// After a subnet scan, each device holds what the answers at its address
/// showed: the server header and the page title are each the first
/// non-empty one of those answers in the order they came, or empty when
/// all were; the markers hold no duplicate and are exactly those that some
/// answer at its address showed.
pub proof fn lemma_scan_evidence(hits: Seq<(u32, u16, HttpResult)>, https: bool)
    ensures
        forall|i: int|
            0 <= i < scan_devices(hits, https).len() ==> scan_evidence(
                #[trigger] scan_devices(hits, https)[i],
                hits,
            ),
        forall|i: int|
            0 <= i < scan_devices(hits, https).len() ==> {
                let d = #[trigger] scan_devices(hits, https)[i];
                &&& d.hints.body_markers.no_duplicates()
                &&& forall|m: Seq<char>|
                    #[trigger] d.hints.body_markers.contains(m) <==> marker_hit(hits, d.ip, m)
                &&& d.hints.server_header.len() == 0 <==> forall|j: int|
                    0 <= j < servers_at(hits, d.ip).len() ==> (#[trigger] servers_at(
                        hits,
                        d.ip,
                    )[j]).len() == 0
                &&& d.hints.server_header.len() > 0 ==> servers_at(hits, d.ip).contains(
                    d.hints.server_header,
                )
                &&& d.hints.device_name.len() == 0 <==> forall|j: int|
                    0 <= j < titles_at(hits, d.ip).len() ==> (#[trigger] titles_at(
                        hits,
                        d.ip,
                    )[j]).len() == 0
                &&& d.hints.device_name.len() > 0 ==> titles_at(hits, d.ip).contains(
                    d.hints.device_name,
                )
            },
{
    lemma_scan_all_evidence(hits);
    let a = scan_all(hits);
    let r = scan_devices(hits, https);
    assert(r.len() == a.len());
    assert forall|i: int| 0 <= i < r.len() implies scan_evidence(#[trigger] r[i], hits) by {
        assert(scan_evidence(a[i], hits));
        assert(r[i].ip == a[i].ip && r[i].hints == a[i].hints);
    }
    assert forall|i: int| 0 <= i < r.len() implies {
        let d = #[trigger] r[i];
        &&& d.hints.body_markers.no_duplicates()
        &&& forall|m: Seq<char>|
            #[trigger] d.hints.body_markers.contains(m) <==> marker_hit(hits, d.ip, m)
        &&& d.hints.server_header.len() == 0 <==> forall|j: int|
            0 <= j < servers_at(hits, d.ip).len() ==> (#[trigger] servers_at(hits, d.ip)[j]).len()
                == 0
        &&& d.hints.server_header.len() > 0 ==> servers_at(hits, d.ip).contains(
            d.hints.server_header,
        )
        &&& d.hints.device_name.len() == 0 <==> forall|j: int|
            0 <= j < titles_at(hits, d.ip).len() ==> (#[trigger] titles_at(hits, d.ip)[j]).len()
                == 0
        &&& d.hints.device_name.len() > 0 ==> titles_at(hits, d.ip).contains(d.hints.device_name)
    } by {
        let d = r[i];
        assert(scan_evidence(d, hits));
        lemma_markers_at(hits, d.ip);
        let ss = servers_at(hits, d.ip);
        let ts = titles_at(hits, d.ip);
        lemma_first_filled(Seq::empty(), ss);
        lemma_first_filled(Seq::empty(), ts);
        if d.hints.server_header.len() > 0 {
            let j = choose|j: int|
                0 <= j < ss.len() && ss[j].len() > 0 && first_filled(Seq::empty(), ss) == ss[j]
                    && forall|m: int| 0 <= m < j ==> (#[trigger] ss[m]).len() == 0;
            assert(ss[j] == d.hints.server_header);
        }
        if d.hints.device_name.len() > 0 {
            let j = choose|j: int|
                0 <= j < ts.len() && ts[j].len() > 0 && first_filled(Seq::empty(), ts) == ts[j]
                    && forall|m: int| 0 <= m < j ==> (#[trigger] ts[m]).len() == 0;
            assert(ts[j] == d.hints.device_name);
        }
    }
}

/// Builds the devices of a subnet scan from the findings of the probes of
/// open ports, in the order they arrived.
pub fn collect_scan(hits: Vec<(u32, u16, HttpResult)>, prefer_https: bool) -> (r: Vec<Device>)
    ensures
        device_views(r@) == scan_devices(hits@, prefer_https),
{
    let mut acc: Vec<Device> = Vec::new();
    let mut i: usize = 0;
    assert(hits@.take(0) =~= Seq::<(u32, u16, HttpResult)>::empty());
    while i < hits.len()
        invariant
            i <= hits@.len(),
            device_views(acc@) == scan_all(hits@.take(i as int)),
        decreases hits@.len() - i,
    {
        let ip = hits[i].0;
        let port = hits[i].1;
        let pr = &hits[i].2;
        assert(hits@.take(i + 1).drop_last() =~= hits@.take(i as int));
        assert(hits@.take(i + 1).last() == hits@[i as int]);
        let k = find_slot(&acc, ip);
        let ghost before = device_views(acc@);
        let fresh = !(k < acc.len() && acc[k].ip == ip);
        if fresh {
            acc.insert(k, Device::new(ip, "subnet"));
        }
        let ghost start = acc@[k as int]@;
        assert(start == if fresh {
            new_device(ip, "subnet"@)
        } else {
            before[k as int]
        });
        let mut present = false;
        let mut j: usize = 0;
        while j < acc[k].open_ports.len()
            invariant
                k < acc@.len(),
                j <= acc@[k as int].open_ports@.len(),
                present == exists|m: int| 0 <= m < j && acc@[k as int].open_ports@[m] == port,
            decreases acc@[k as int].open_ports@.len() - j,
        {
            if acc[k].open_ports[j] == port {
                present = true;
            }
            j += 1;
        }
        if !present {
            acc[k].open_ports.push(port);
        }
        if !pr.server_header.as_str().is_empty() && acc[k].hints.server_header.as_str().is_empty() {
            acc[k].hints.server_header = pr.server_header.clone();
        }
        if !pr.title.as_str().is_empty() && acc[k].hints.device_name.as_str().is_empty() {
            acc[k].hints.device_name = pr.title.clone();
        }
        let markers = unique_strings(
            acc[k].hints.body_markers.as_slice(),
            pr.body_markers.as_slice(),
        );
        acc[k].hints.body_markers = markers;
        assert(acc@[k as int]@ == absorb(start, port, pr@));
        if fresh {
            assert(device_views(acc@) =~= before.insert(
                k as int,
                absorb(new_device(ip, "subnet"@), port, pr@),
            ));
        } else {
            assert(device_views(acc@) =~= before.update(
                k as int,
                absorb(before[k as int], port, pr@),
            ));
        }
        i += 1;
    }
    assert(hits@.take(i as int) =~= hits@);
    if prefer_https {
        apply_https_preference(&mut acc);
    }
    acc
}

} // verus!
