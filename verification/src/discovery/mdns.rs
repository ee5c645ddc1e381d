//! mDNS/Bonjour service discovery of Axis devices: the PTR queries for
//! `_axis-video._tcp.local` and `_axis-nvr._tcp.local`, and the reading of
//! the answers.

use vstd::prelude::*;
use vstd::string::StringSliceAdditionalSpecFns;
use crate::discovery::{Config, Datagram, payload_views};
use crate::model::{
    Device, DeviceView, HintsView, append_new, at_ip, device_of, device_views, fold_group,
    found_at, found_by, has_ip, lemma_append_new, lemma_found_by, lemma_merge_all, merge_all,
    new_device, stands_at, strictly_sorted_by_ip, upsert_device,
};
use crate::text::{
    chars_of, contains_chars, contains_seq, decode_lossy, lowercase_of, lossy_utf8,
    split_byte_ranges, split_on, to_lowercase, views,
};

verus! {

broadcast use vstd::string::group_string_axioms;

// ---------------------------------------------------------------------------
// Queries
// ---------------------------------------------------------------------------

/// The name without one trailing dot (byte 46).
pub open spec fn strip_dot(b: Seq<u8>) -> Seq<u8> {
    if b.len() > 0 && b.last() == 46 {
        b.drop_last()
    } else {
        b
    }
}

/// The labels of a dotted name.
pub open spec fn dns_labels(name: Seq<u8>) -> Seq<Seq<u8>> {
    split_on(strip_dot(name), seq![46u8])
}

/// Each label preceded by its length.
pub open spec fn encode_labels(ls: Seq<Seq<u8>>) -> Seq<u8>
    decreases ls.len(),
{
    if ls.len() == 0 {
        Seq::empty()
    } else {
        encode_labels(ls.drop_last()) + seq![ls.last().len() as u8] + ls.last()
    }
}

/// The DNS wire form of the UTF-8 bytes of a dotted name: each label
/// preceded by its length and the root label at the end; none if a label
/// is empty or longer than 63 bytes.
pub open spec fn dns_name_wire(name: Seq<u8>) -> Option<Seq<u8>> {
    let ls = dns_labels(name);
    if forall|i: int| 0 <= i < ls.len() ==> 0 < (#[trigger] ls[i]).len() <= 63 {
        Some(encode_labels(ls).push(0u8))
    } else {
        None
    }
}

/// An optional byte vector as an optional sequence.
pub open spec fn opt_bytes(r: Option<Vec<u8>>) -> Option<Seq<u8>> {
    match r {
        Some(v) => Some(v@),
        None => None,
    }
}

/// Converts a dot-separated name to DNS wire format.
pub fn encode_dns_name(name: &str) -> (r: Option<Vec<u8>>)
    ensures
        opt_bytes(r) == dns_name_wire(name.spec_bytes()),
{
    let bytes = name.as_bytes();
    let mut end = bytes.len();
    if end > 0 && bytes[end - 1] == 46 {
        end -= 1;
    }
    let body = &bytes[0..end];
    assert(body@ =~= strip_dot(name.spec_bytes()));
    let ranges = split_byte_ranges(body, 46);
    let ghost ls = dns_labels(name.spec_bytes());
    let mut buf: Vec<u8> = Vec::new();
    let mut i: usize = 0;
    assert(ls.take(0) =~= Seq::<Seq<u8>>::empty());
    while i < ranges.len()
        invariant
            i <= ranges@.len(),
            ls == split_on(body@, seq![46u8]),
            ls == dns_labels(name.spec_bytes()),
            ranges@.len() == ls.len(),
            forall|k: int|
                0 <= k < ranges@.len() ==> {
                    &&& (#[trigger] ranges@[k]).0 <= ranges@[k].1 <= body@.len()
                    &&& body@.subrange(ranges@[k].0 as int, ranges@[k].1 as int) == ls[k]
                },
            forall|k: int| 0 <= k < i ==> 0 < (#[trigger] ls[k]).len() <= 63,
            buf@ == encode_labels(ls.take(i as int)),
        decreases ranges@.len() - i,
    {
        let (a, b) = ranges[i];
        let label = &body[a..b];
        assert(label@ == ls[i as int]);
        if label.len() == 0 || label.len() > 63 {
            assert(!(0 < (ls[i as int]).len() <= 63));
            return None;
        }
        let ghost before = buf@;
        buf.push(label.len() as u8);
        let mut j: usize = 0;
        while j < label.len()
            invariant
                j <= label@.len(),
                buf@ == before + seq![label@.len() as u8] + label@.take(j as int),
            decreases label@.len() - j,
        {
            buf.push(label[j]);
            assert(buf@ =~= before + seq![label@.len() as u8] + label@.take(j + 1));
            j += 1;
        }
        assert(label@.take(j as int) =~= label@);
        assert(ls.take(i + 1).drop_last() =~= ls.take(i as int));
        i += 1;
    }
    assert(ls.take(i as int) =~= ls);
    buf.push(0);
    Some(buf)
}

/// The DNS header of the query: id 0, flags 0, one question.
pub open spec fn query_header() -> Seq<u8> {
    seq![0u8, 0u8, 0u8, 0u8, 0u8, 1u8, 0u8, 0u8, 0u8, 0u8, 0u8, 0u8]
}

/// QTYPE PTR (12) and QCLASS IN (1).
pub open spec fn ptr_in() -> Seq<u8> {
    seq![0u8, 0x0cu8, 0u8, 1u8]
}

/// The query packet for a PTR record of `service`.
pub open spec fn mdns_query(service: Seq<u8>) -> Option<Seq<u8>> {
    match dns_name_wire(service) {
        Some(q) => Some(query_header() + q + ptr_in()),
        None => None,
    }
}

/// Constructs a minimal DNS query packet for a PTR record of the given
/// service.
pub fn build_mdns_query(service: &str) -> (r: Option<Vec<u8>>)
    ensures
        opt_bytes(r) == mdns_query(service.spec_bytes()),
{
    let qname = match encode_dns_name(service) {
        Some(q) => q,
        None => return None,
    };
    let mut pkt: Vec<u8> = vec![0u8, 0u8, 0u8, 0u8, 0u8, 1u8, 0u8, 0u8, 0u8, 0u8, 0u8, 0u8];
    assert(pkt@ =~= query_header());
    let mut i: usize = 0;
    while i < qname.len()
        invariant
            i <= qname@.len(),
            pkt@ == query_header() + qname@.take(i as int),
        decreases qname@.len() - i,
    {
        pkt.push(qname[i]);
        assert(pkt@ =~= query_header() + qname@.take(i + 1));
        i += 1;
    }
    assert(qname@.take(i as int) =~= qname@);
    pkt.push(0x00);
    pkt.push(0x0c);
    pkt.push(0x00);
    pkt.push(0x01);
    assert(pkt@ =~= query_header() + qname@ + ptr_in());
    Some(pkt)
}

/// The services queried.
pub open spec fn axis_services() -> Seq<Seq<u8>> {
    seq!["_axis-video._tcp.local".spec_bytes(), "_axis-nvr._tcp.local".spec_bytes()]
}

/// The query payloads for the Axis services, leaving out a service whose
/// name cannot be encoded.
pub open spec fn axis_query_payloads() -> Seq<Seq<u8>> {
    (match mdns_query(axis_services()[0]) {
        Some(p) => seq![p],
        None => Seq::empty(),
    }) + (match mdns_query(axis_services()[1]) {
        Some(p) => seq![p],
        None => Seq::empty(),
    })
}

/// The query payloads for the Axis services.
pub fn axis_queries() -> (r: Vec<Vec<u8>>)
    ensures
        r@.map_values(|v: Vec<u8>| v@) == axis_query_payloads(),
{
    let mut r: Vec<Vec<u8>> = Vec::new();
    match build_mdns_query("_axis-video._tcp.local") {
        Some(p) => r.push(p),
        None => {},
    }
    let ghost first = r@.map_values(|v: Vec<u8>| v@);
    match build_mdns_query("_axis-nvr._tcp.local") {
        Some(p) => r.push(p),
        None => {},
    }
    assert(r@.map_values(|v: Vec<u8>| v@) =~= axis_query_payloads());
    r
}

/// The mDNS round: the queries for the Axis services sent twice, 200 ms
/// apart, to 224.0.0.251:5353.
pub fn config(verbose: bool) -> (c: Config)
    ensures
        c.group_ip == 0xE000_00FB,
        c.group_port == 5353,
        payload_views(c.payloads@) == axis_query_payloads(),
        c.send_count == 2,
        c.send_delay_ms == 200,
        c.recv_buf == 4096,
        c.verbose == verbose,
        c.tag@ == "mdns"@,
{
    let payloads = axis_queries();
    assert(payload_views(payloads@) =~= payloads@.map_values(|v: Vec<u8>| v@));
    Config {
        group_ip: 0xE000_00FB,
        group_port: 5353,
        payloads,
        send_count: 2,
        send_delay_ms: 200,
        recv_buf: 4096,
        verbose,
        tag: "mdns",
    }
}

// ---------------------------------------------------------------------------
// Answers
// ---------------------------------------------------------------------------

/// The Axis markers of an mDNS packet: none unless it is a response (12
/// bytes of header at least, QR bit set); otherwise, in the lower-cased
/// lossy text of the packet, one marker each for `_axis-video` and
/// `_axis-nvr`, or a plain one for `axis` when neither occurs.
pub open spec fn mdns_markers(data: Seq<u8>) -> Seq<Seq<char>> {
    if data.len() < 12 || data[2] < 128 {
        Seq::empty()
    } else {
        text_markers(lowercase_of(lossy_utf8(data)))
    }
}

/// The markers of the lower-cased text of a response: one each for
/// `_axis-video` and `_axis-nvr`, or a plain one for `axis` when neither
/// occurs.
pub open spec fn text_markers(body: Seq<char>) -> Seq<Seq<char>> {
    let m1: Seq<Seq<char>> = if contains_seq(body, "_axis-video"@) {
        seq!["mdns:axis-video"@]
    } else {
        Seq::empty()
    };
    let m2: Seq<Seq<char>> = m1 + if contains_seq(body, "_axis-nvr"@) {
        seq!["mdns:axis-nvr"@]
    } else {
        Seq::empty()
    };
    if contains_seq(body, "axis"@) && m2.len() == 0 {
        seq!["mdns:axis"@]
    } else {
        m2
    }
}

/// Extracts Axis-related markers from an mDNS response packet.
pub fn parse_mdns_response(data: &[u8]) -> (r: Vec<String>)
    ensures
        views(r@) == mdns_markers(data@),
{
    let mut markers: Vec<String> = Vec::new();
    if data.len() < 12 {
        assert(views(markers@) =~= Seq::empty());
        return markers;
    }
    let hi = data[2];
    let lo = data[3];
    let flags: u16 = ((hi as u16) << 8) | (lo as u16);
    assert(((hi as u16) << 8 | (lo as u16)) & 0x8000u16 == 0 <==> hi < 128) by (bit_vector);
    if flags & 0x8000 == 0 {
        assert(views(markers@) =~= Seq::empty());
        return markers;
    }
    let text = decode_lossy(data);
    let lower = to_lowercase(text.as_str());
    let markers = markers_in_text(lower.as_str());
    markers
}

/// The markers of the lower-cased text of an mDNS response.
pub fn markers_in_text(lower: &str) -> (r: Vec<String>)
    ensures
        views(r@) == text_markers(lower@),
{
    let mut markers: Vec<String> = Vec::new();
    let body = chars_of(lower);
    if contains_chars(body.as_slice(), chars_of("_axis-video").as_slice()) {
        markers.push("mdns:axis-video".to_string());
    }
    if contains_chars(body.as_slice(), chars_of("_axis-nvr").as_slice()) {
        markers.push("mdns:axis-nvr".to_string());
    }
    if contains_chars(body.as_slice(), chars_of("axis").as_slice()) && markers.len() == 0 {
        markers.push("mdns:axis".to_string());
    }
    assert(views(markers@) =~= text_markers(lower@));
    markers
}

/// The device that an answer with markers `m` from `src` stands for.
pub open spec fn mdns_device(src: u32, m: Seq<Seq<char>>) -> DeviceView {
    let d = new_device(src, "mdns"@);
    DeviceView { hints: HintsView { body_markers: m, ..d.hints }, ..d }
}

/// One device for each datagram that carries markers, in order.
pub open spec fn mdns_candidates(dgs: Seq<Datagram>) -> Seq<DeviceView>
    decreases dgs.len(),
{
    if dgs.len() == 0 {
        Seq::empty()
    } else {
        let prev = mdns_candidates(dgs.drop_last());
        let m = mdns_markers(dgs.last().data@);
        if m.len() > 0 {
            prev.push(mdns_device(dgs.last().src, m))
        } else {
            prev
        }
    }
}

/// What a datagram stands for: the device of an answer with markers,
/// nothing for any other payload.
pub open spec fn mdns_found() -> spec_fn(Datagram) -> Option<DeviceView> {
    |dg: Datagram|
        if mdns_markers(dg.data@).len() > 0 {
            Some(mdns_device(dg.src, mdns_markers(dg.data@)))
        } else {
            None
        }
}

proof fn lemma_mdns_candidates(dgs: Seq<Datagram>)
    ensures
        mdns_candidates(dgs) == found_by(dgs, mdns_found()),
    decreases dgs.len(),
{
    if dgs.len() > 0 {
        lemma_mdns_candidates(dgs.drop_last());
    }
}

/// The markers of one answer are distinct.
proof fn lemma_markers_distinct(data: Seq<u8>)
    ensures
        mdns_markers(data).no_duplicates(),
{
    reveal_strlit("mdns:axis-video");
    reveal_strlit("mdns:axis-nvr");
    assert("mdns:axis-video"@.len() != "mdns:axis-nvr"@.len());
    let m = mdns_markers(data);
    assert forall|i: int, j: int| 0 <= i < m.len() && 0 <= j < m.len() && i != j implies m[i]
        != m[j] by {
        assert(m.len() == 2 ==> m[0] == "mdns:axis-video"@ && m[1] == "mdns:axis-nvr"@);
    }
}

/// Devices of one address found by mDNS, merged in order, are found by
/// mDNS only and hold exactly the markers of any of them.
proof fn lemma_mdns_group(g: Seq<DeviceView>, ip: u32)
    requires
        g.len() > 0,
        forall|k: int| 0 <= k < g.len() ==> (#[trigger] g[k]) == mdns_device(ip, g[k].hints.body_markers),
    ensures
        fold_group(g).ip == ip,
        fold_group(g).methods == seq!["mdns"@],
        g[0].hints.body_markers.no_duplicates() ==> fold_group(g).hints.body_markers.no_duplicates(),
        forall|m: Seq<char>| #[trigger] fold_group(g).hints.body_markers.contains(m) <==> exists|k: int|
            0 <= k < g.len() && g[k].hints.body_markers.contains(m),
    decreases g.len(),
{
    if g.len() > 1 {
        let prev = g.drop_last();
        assert forall|k: int| 0 <= k < prev.len() implies (#[trigger] prev[k]) == mdns_device(
            ip,
            prev[k].hints.body_markers,
        ) by {
            assert(prev[k] == g[k]);
        }
        lemma_mdns_group(prev, ip);
        assert(prev[0] == g[0]);
        let f = fold_group(prev);
        let last = g[g.len() - 1];
        assert(seq!["mdns"@].drop_last() =~= Seq::<Seq<char>>::empty());
        assert(seq!["mdns"@].contains("mdns"@)) by {
            assert(seq!["mdns"@][0] == "mdns"@);
        }
        assert(last.methods.drop_last() =~= Seq::<Seq<char>>::empty());
        assert(append_new(f.methods, last.methods.drop_last()) == f.methods);
        assert(last.methods.last() == "mdns"@);
        assert(f.methods.contains("mdns"@)) by {
            assert(f.methods[0] == "mdns"@);
        }
        assert(append_new(f.methods, last.methods) == f.methods);
        lemma_append_new(f.hints.body_markers, last.hints.body_markers);
        assert forall|m: Seq<char>| #[trigger] fold_group(g).hints.body_markers.contains(m)
            <==> exists|k: int| 0 <= k < g.len() && g[k].hints.body_markers.contains(m) by {
            if exists|k: int| 0 <= k < g.len() && g[k].hints.body_markers.contains(m) {
                let k = choose|k: int| 0 <= k < g.len() && g[k].hints.body_markers.contains(m);
                if k < prev.len() {
                    assert(prev[k] == g[k]);
                }
            }
            if exists|k: int| 0 <= k < prev.len() && prev[k].hints.body_markers.contains(m) {
                let k = choose|k: int| 0 <= k < prev.len() && prev[k].hints.body_markers.contains(m);
                assert(g[k] == prev[k]);
            }
        }
    } else {
        assert(g[0] == mdns_device(ip, g[0].hints.body_markers));
    }
}

/// The merged device of the answers with markers from `ip`.
proof fn lemma_mdns_entry(dgs: Seq<Datagram>, ip: u32)
    requires
        has_ip(found_by(dgs, mdns_found()), ip),
    ensures
        ({
            let d = fold_group(
                dgs.filter(found_at(mdns_found(), ip)).map_values(device_of(mdns_found())),
            );
            &&& d.ip == ip
            &&& d.methods == seq!["mdns"@]
            &&& d.hints.body_markers.no_duplicates()
            &&& forall|m: Seq<char>|
                d.hints.body_markers.contains(m) <==> exists|j: int|
                    0 <= j < dgs.len() && (#[trigger] dgs[j]).src == ip && mdns_markers(
                        dgs[j].data@,
                    ).contains(m)
        }),
{
    lemma_found_by(dgs, mdns_found());
    let f = found_at(mdns_found(), ip);
    let from = dgs.filter(f);
    let h = device_of(mdns_found());
    let g = from.map_values(h);
    let j0 = choose|j: int| 0 <= j < dgs.len() && #[trigger] stands_at(mdns_found(), ip, dgs[j]);
    assert(f(dgs[j0]));
    dgs.lemma_filter_contains(f, j0);
    broadcast use vstd::seq_lib::group_filter_ensures;
    assert forall|k: int| 0 <= k < g.len() implies (#[trigger] g[k]) == mdns_device(
        ip,
        g[k].hints.body_markers,
    ) by {
        assert(f(from[k]));
        assert(g[k] == h(from[k]));
    }
    assert(g[0] == h(from[0]));
    lemma_markers_distinct(from[0].data@);
    lemma_mdns_group(g, ip);
    let d = fold_group(g);
    assert forall|m: Seq<char>| d.hints.body_markers.contains(m) <==> exists|j: int|
        0 <= j < dgs.len() && (#[trigger] dgs[j]).src == ip && mdns_markers(dgs[j].data@).contains(
            m,
        ) by {
        if exists|k: int| 0 <= k < g.len() && g[k].hints.body_markers.contains(m) {
            let k = choose|k: int| 0 <= k < g.len() && g[k].hints.body_markers.contains(m);
            assert(f(from[k]));
            assert(g[k] == h(from[k]));
            let x = from[k];
            assert(from.contains(x));
            dgs.lemma_filter_contains_rev(f, x);
            let j = choose|j: int| 0 <= j < dgs.len() && dgs[j] == x;
            assert(stands_at(mdns_found(), ip, x));
            assert(mdns_markers(x.data@).len() > 0);
            assert(h(x) == mdns_device(x.src, mdns_markers(x.data@)));
            assert(x.src == ip);
            assert(dgs[j].src == ip && mdns_markers(dgs[j].data@).contains(m));
        }
        if exists|j: int|
            0 <= j < dgs.len() && (#[trigger] dgs[j]).src == ip && mdns_markers(
                dgs[j].data@,
            ).contains(m) {
            let j = choose|j: int|
                0 <= j < dgs.len() && (#[trigger] dgs[j]).src == ip && mdns_markers(
                    dgs[j].data@,
                ).contains(m);
            assert(f(dgs[j]));
            dgs.lemma_filter_contains(f, j);
            let k = choose|k: int| 0 <= k < from.len() && from[k] == dgs[j];
            assert(g[k] == h(from[k]));
            assert(g[k].hints.body_markers.contains(m));
        }
    }
}

/// The mDNS devices are one per address from which an answer with markers
/// came, in ascending order; each is found by mDNS only and holds exactly
/// the markers of the answers from its address, each once; it is the
/// merge, in order, of the devices of those answers.
pub proof fn lemma_mdns_devices(dgs: Seq<Datagram>)
    ensures
        strictly_sorted_by_ip(merge_all(mdns_candidates(dgs))),
        forall|ip: u32|
            has_ip(merge_all(mdns_candidates(dgs)), ip) <==> exists|j: int|
                0 <= j < dgs.len() && (#[trigger] dgs[j]).src == ip && mdns_markers(dgs[j].data@).len()
                    > 0,
        forall|i: int|
            0 <= i < merge_all(mdns_candidates(dgs)).len() ==> {
                let d = #[trigger] merge_all(mdns_candidates(dgs))[i];
                &&& d == fold_group(
                    dgs.filter(found_at(mdns_found(), d.ip)).map_values(device_of(mdns_found())),
                )
                &&& d.methods == seq!["mdns"@]
                &&& d.hints.body_markers.no_duplicates()
                &&& forall|m: Seq<char>|
                    d.hints.body_markers.contains(m) <==> exists|j: int|
                        0 <= j < dgs.len() && (#[trigger] dgs[j]).src == d.ip && mdns_markers(
                            dgs[j].data@,
                        ).contains(m)
            },
{
    let c = mdns_candidates(dgs);
    let r = merge_all(c);
    lemma_mdns_candidates(dgs);
    lemma_found_by(dgs, mdns_found());
    lemma_merge_all(c);
    assert forall|ip: u32| has_ip(r, ip) <==> exists|j: int|
        0 <= j < dgs.len() && (#[trigger] dgs[j]).src == ip && mdns_markers(dgs[j].data@).len()
            > 0 by {
        if has_ip(c, ip) {
            assert(has_ip(found_by(dgs, mdns_found()), ip));
            let j = choose|j: int| 0 <= j < dgs.len() && #[trigger] stands_at(mdns_found(), ip, dgs[j]);
            assert(dgs[j].src == ip);
        }
        if exists|j: int| 0 <= j < dgs.len() && (#[trigger] dgs[j]).src == ip && mdns_markers(dgs[j].data@).len() > 0 {
            let j = choose|j: int| 0 <= j < dgs.len() && (#[trigger] dgs[j]).src == ip && mdns_markers(dgs[j].data@).len() > 0;
            assert(stands_at(mdns_found(), ip, dgs[j]));
        }
    }
    assert forall|i: int| 0 <= i < r.len() implies {
        let d = #[trigger] r[i];
        &&& d == fold_group(
            dgs.filter(found_at(mdns_found(), d.ip)).map_values(device_of(mdns_found())),
        )
        &&& d.methods == seq!["mdns"@]
        &&& d.hints.body_markers.no_duplicates()
        &&& forall|m: Seq<char>|
            d.hints.body_markers.contains(m) <==> exists|j: int|
                0 <= j < dgs.len() && (#[trigger] dgs[j]).src == d.ip && mdns_markers(
                    dgs[j].data@,
                ).contains(m)
    } by {
        let d = r[i];
        let ip = d.ip;
        assert(found_by(dgs, mdns_found()).filter(at_ip(ip)) == dgs.filter(
            found_at(mdns_found(), ip),
        ).map_values(device_of(mdns_found())));
        assert(d == fold_group(c.filter(at_ip(ip))));
        assert(has_ip(r, ip));
        assert(has_ip(found_by(dgs, mdns_found()), ip));
        lemma_mdns_entry(dgs, ip);
    }
}

/// The devices that the received mDNS answers show: one per address, in
/// ascending order, with the markers of all its answers united.
pub fn mdns_devices(datagrams: &[Datagram]) -> (r: Vec<Device>)
    ensures
        device_views(r@) == merge_all(mdns_candidates(datagrams@)),
{
    let mut acc: Vec<Device> = Vec::new();
    let mut i: usize = 0;
    assert(datagrams@.take(0) =~= Seq::<Datagram>::empty());
    while i < datagrams.len()
        invariant
            i <= datagrams@.len(),
            device_views(acc@) == merge_all(mdns_candidates(datagrams@.take(i as int))),
        decreases datagrams@.len() - i,
    {
        let dg = &datagrams[i];
        let markers = parse_mdns_response(dg.data.as_slice());
        assert(datagrams@.take(i + 1).drop_last() =~= datagrams@.take(i as int));
        assert(datagrams@.take(i + 1).last() == datagrams@[i as int]);
        let ghost prev = mdns_candidates(datagrams@.take(i as int));
        if markers.len() > 0 {
            let mut d = Device::new(dg.src, "mdns");
            d.hints.body_markers = markers;
            assert(d@ == mdns_device(dg.src, mdns_markers(dg.data@)));
            upsert_device(&mut acc, d);
            assert(mdns_candidates(datagrams@.take(i + 1)) == prev.push(d@));
            assert(prev.push(d@).drop_last() =~= prev);
        } else {
            assert(mdns_markers(dg.data@).len() == 0);
            assert(mdns_candidates(datagrams@.take(i + 1)) == prev);
        }
        i += 1;
    }
    assert(datagrams@.take(i as int) =~= datagrams@);
    acc
}

} // verus!
