//! ONVIF WS-Discovery for finding cameras: the probe, the markers of the
//! answers, and the service addresses they announce.

use vstd::prelude::*;
use vstd::string::StringSliceAdditionalSpecFns;
use crate::discovery::{Config, Datagram, payload_views};
use crate::model::{
    Device, DeviceView, HintsView, at_ip, device_views, first_per_ip, found_at, found_by,
    has_ip, insert_if_absent, lemma_first_per_ip, lemma_found_by, new_device, stands_at,
    strictly_sorted_by_ip,
};
use crate::text::{
    chars_of, contains_chars, contains_seq, decode_lossy, find, find_chars, find_chars_ci,
    find_ci, lemma_find_ci_from, lemma_find_from, lossy_utf8, opt_int, split_whitespace,
    to_uppercase, uppercase_of, views, words,
};

verus! {

broadcast use vstd::string::group_string_axioms;

/// WS-Discovery Probe targeting ONVIF network video transmitters.
pub const PROBE_MESSAGE: &'static str = "<?xml version=\"1.0\" encoding=\"utf-8\"?>
<soap:Envelope xmlns:soap=\"http://www.w3.org/2003/05/soap-envelope\"
               xmlns:wsa=\"http://schemas.xmlsoap.org/ws/2004/08/addressing\"
               xmlns:wsd=\"http://schemas.xmlsoap.org/ws/2005/04/discovery\"
               xmlns:wsdp=\"http://schemas.xmlsoap.org/ws/2006/02/devprof\"
               xmlns:dn=\"http://www.onvif.org/ver10/network/wsdl\">
  <soap:Header>
    <wsa:Action>http://schemas.xmlsoap.org/ws/2005/04/discovery/Probe</wsa:Action>
    <wsa:MessageID>urn:uuid:vapx-scan-probe-00000001</wsa:MessageID>
    <wsa:To>urn:schemas-xmlsoap-org:ws:2005:04:discovery</wsa:To>
  </soap:Header>
  <soap:Body>
    <wsd:Probe>
      <wsd:Types>dn:NetworkVideoTransmitter</wsd:Types>
    </wsd:Probe>
  </soap:Body>
</soap:Envelope>";

/// The ONVIF round: the probe sent twice, 200 ms apart, to
/// 239.255.255.250:3702.
pub fn config(verbose: bool) -> (c: Config)
    ensures
        c.group_ip == 0xEFFF_FFFA,
        c.group_port == 3702,
        payload_views(c.payloads@) == seq![PROBE_MESSAGE.spec_bytes()],
        c.send_count == 2,
        c.send_delay_ms == 200,
        c.recv_buf == 8192,
        c.verbose == verbose,
        c.tag@ == "onvif"@,
{
    let mut payloads: Vec<Vec<u8>> = Vec::new();
    payloads.push(vstd::slice::slice_to_vec(PROBE_MESSAGE.as_bytes()));
    assert(payload_views(payloads@) =~= seq![PROBE_MESSAGE.spec_bytes()]);
    Config {
        group_ip: 0xEFFF_FFFA,
        group_port: 3702,
        payloads,
        send_count: 2,
        send_delay_ms: 200,
        recv_buf: 8192,
        verbose,
        tag: "onvif",
    }
}

/// The markers of a ProbeMatch answer: `onvif:AXIS` if the upper-cased text
/// holds `AXIS`, `onvif:NetworkVideoTransmitter` if the text holds that
/// word.
pub open spec fn onvif_markers(body: Seq<char>) -> Seq<Seq<char>> {
    (if contains_seq(uppercase_of(body), "AXIS"@) {
        seq!["onvif:AXIS"@]
    } else {
        Seq::empty()
    }) + (if contains_seq(body, "NetworkVideoTransmitter"@) {
        seq!["onvif:NetworkVideoTransmitter"@]
    } else {
        Seq::empty()
    })
}

/// Pulls Axis-related strings from a WS-Discovery ProbeMatch answer.
pub fn extract_onvif_markers(body: &str) -> (r: Vec<String>)
    ensures
        views(r@) == onvif_markers(body@),
{
    let mut markers: Vec<String> = Vec::new();
    let upper = to_uppercase(body);
    let uc = chars_of(upper.as_str());
    let bc = chars_of(body);
    if contains_chars(uc.as_slice(), chars_of("AXIS").as_slice()) {
        markers.push("onvif:AXIS".to_string());
    }
    if contains_chars(bc.as_slice(), chars_of("NetworkVideoTransmitter").as_slice()) {
        markers.push("onvif:NetworkVideoTransmitter".to_string());
    }
    assert(views(markers@) =~= onvif_markers(body@));
    markers
}

// ---------------------------------------------------------------------------
// Service addresses
// ---------------------------------------------------------------------------

/// Where a tag occurs: as written if it does, else first ignoring ASCII
/// case.
pub open spec fn tag_at(text: Seq<char>, tag: Seq<char>) -> Option<int> {
    match find(text, tag) {
        Some(i) => Some(i),
        None => find_ci(text, tag),
    }
}

/// The whitespace-separated addresses between `<XAddrs>` and the
/// `</XAddrs>` that follows it (each tag as written if it occurs so, else
/// in any ASCII case); none when either tag is missing.
pub open spec fn xaddrs_of(body: Seq<char>) -> Seq<Seq<char>> {
    match tag_at(body, "<XAddrs>"@) {
        None => Seq::empty(),
        Some(i) => {
            let r = body.skip(i + "<XAddrs>"@.len());
            match tag_at(r, "</XAddrs>"@) {
                None => Seq::empty(),
                Some(k) => words(r.take(k)),
            }
        },
    }
}

/// Where `tag` occurs in `text` as `tag_at` says.
fn find_tag(text: &[char], tag: &[char]) -> (r: Option<usize>)
    ensures
        opt_int(r) == tag_at(text@, tag@),
        r matches Some(i) ==> i + tag@.len() <= text@.len(),
{
    match find_chars(text, tag) {
        Some(i) => {
            proof {
                lemma_find_from(text@, tag@, 0);
            }
            Some(i)
        },
        None => {
            let r = find_chars_ci(text, tag);
            proof {
                lemma_find_ci_from(text@, tag@, 0);
            }
            r
        },
    }
}

/// Parses the addresses (`XAddrs`) of a WS-Discovery ProbeMatch answer;
/// each tag is looked for as written, then in any ASCII case.
pub fn extract_xaddrs(body: &str) -> (r: Vec<String>)
    ensures
        views(r@) == xaddrs_of(body@),
{
    let b = chars_of(body);
    let open = chars_of("<XAddrs>");
    let close = chars_of("</XAddrs>");
    let i = match find_tag(b.as_slice(), open.as_slice()) {
        Some(i) => i,
        None => {
            let r: Vec<String> = Vec::new();
            assert(views(r@) =~= Seq::<Seq<char>>::empty());
            return r;
        },
    };
    assert(i + open@.len() <= b.len());
    let start = i + open.len();
    let rest = &b[start..b.len()];
    assert(rest@ =~= b@.skip(start as int));
    let k = match find_tag(rest, close.as_slice()) {
        Some(k) => k,
        None => {
            let r: Vec<String> = Vec::new();
            assert(views(r@) =~= Seq::<Seq<char>>::empty());
            return r;
        },
    };
    let seg = &rest[0..k];
    assert(seg@ =~= rest@.take(k as int));
    split_whitespace(seg)
}

// ---------------------------------------------------------------------------
// Devices
// ---------------------------------------------------------------------------

/// The device that an answer from `src` with the given payload stands for.
pub open spec fn onvif_device(src: u32, data: Seq<u8>) -> DeviceView {
    let d = new_device(src, "onvif"@);
    DeviceView {
        hints: HintsView { body_markers: onvif_markers(lossy_utf8(data)), ..d.hints },
        ..d
    }
}

/// One device per datagram, in order.
pub open spec fn onvif_candidates(dgs: Seq<Datagram>) -> Seq<DeviceView>
    decreases dgs.len(),
{
    if dgs.len() == 0 {
        Seq::empty()
    } else {
        onvif_candidates(dgs.drop_last()).push(onvif_device(dgs.last().src, dgs.last().data@))
    }
}

/// What a datagram stands for: the device of an ONVIF answer.
pub open spec fn onvif_found() -> spec_fn(Datagram) -> Option<DeviceView> {
    |dg: Datagram| Some(onvif_device(dg.src, dg.data@))
}

proof fn lemma_onvif_candidates(dgs: Seq<Datagram>)
    ensures
        onvif_candidates(dgs) == found_by(dgs, onvif_found()),
    decreases dgs.len(),
{
    if dgs.len() > 0 {
        lemma_onvif_candidates(dgs.drop_last());
    }
}

/// The ONVIF devices are one per address that answered, in ascending
/// order; each is the device of the first answer from its address (the
/// markers of that answer).
pub proof fn lemma_onvif_devices(dgs: Seq<Datagram>)
    ensures
        strictly_sorted_by_ip(first_per_ip(onvif_candidates(dgs))),
        forall|ip: u32|
            has_ip(first_per_ip(onvif_candidates(dgs)), ip) <==> exists|j: int|
                0 <= j < dgs.len() && (#[trigger] dgs[j]).src == ip,
        forall|i: int|
            0 <= i < first_per_ip(onvif_candidates(dgs)).len() ==> {
                let d = #[trigger] first_per_ip(onvif_candidates(dgs))[i];
                let from = dgs.filter(found_at(onvif_found(), d.ip));
                &&& from.len() > 0
                &&& from[0].src == d.ip
                &&& d == onvif_device(from[0].src, from[0].data@)
            },
{
    let c = onvif_candidates(dgs);
    let r = first_per_ip(c);
    lemma_onvif_candidates(dgs);
    lemma_found_by(dgs, onvif_found());
    lemma_first_per_ip(c);
    assert forall|ip: u32| has_ip(r, ip) <==> exists|j: int|
        0 <= j < dgs.len() && (#[trigger] dgs[j]).src == ip by {
        if has_ip(c, ip) {
            assert(has_ip(found_by(dgs, onvif_found()), ip));
            let j = choose|j: int| 0 <= j < dgs.len() && #[trigger] stands_at(onvif_found(), ip, dgs[j]);
            assert(dgs[j].src == ip);
        }
        if exists|j: int| 0 <= j < dgs.len() && (#[trigger] dgs[j]).src == ip {
            let j = choose|j: int| 0 <= j < dgs.len() && (#[trigger] dgs[j]).src == ip;
            assert(stands_at(onvif_found(), ip, dgs[j]));
        }
    }
    assert forall|i: int| 0 <= i < r.len() implies {
        let d = #[trigger] r[i];
        let from = dgs.filter(found_at(onvif_found(), d.ip));
        &&& from.len() > 0
        &&& from[0].src == d.ip
        &&& d == onvif_device(from[0].src, from[0].data@)
    } by {
        let d = r[i];
        let f = found_at(onvif_found(), d.ip);
        let from = dgs.filter(f);
        assert(has_ip(r, d.ip));
        assert(has_ip(found_by(dgs, onvif_found()), d.ip));
        let j = choose|j: int| 0 <= j < dgs.len() && #[trigger] stands_at(onvif_found(), d.ip, dgs[j]);
        assert(f(dgs[j]));
        dgs.lemma_filter_contains(f, j);
        broadcast use vstd::seq_lib::group_filter_ensures;
        assert(f(from[0]));
        assert(found_by(dgs, onvif_found()).filter(at_ip(d.ip)) == from.map_values(
            crate::model::device_of(onvif_found()),
        ));
    }
}

/// The devices that the received ONVIF answers show: the first answer per
/// address wins; one device per address, in ascending order.
pub fn onvif_devices(datagrams: &[Datagram]) -> (r: Vec<Device>)
    ensures
        device_views(r@) == first_per_ip(onvif_candidates(datagrams@)),
{
    let mut acc: Vec<Device> = Vec::new();
    let mut i: usize = 0;
    assert(datagrams@.take(0) =~= Seq::<Datagram>::empty());
    while i < datagrams.len()
        invariant
            i <= datagrams@.len(),
            device_views(acc@) == first_per_ip(onvif_candidates(datagrams@.take(i as int))),
        decreases datagrams@.len() - i,
    {
        let dg = &datagrams[i];
        assert(datagrams@.take(i + 1).drop_last() =~= datagrams@.take(i as int));
        assert(datagrams@.take(i + 1).last() == datagrams@[i as int]);
        let ghost prev = onvif_candidates(datagrams@.take(i as int));
        let body = decode_lossy(dg.data.as_slice());
        let mut d = Device::new(dg.src, "onvif");
        d.hints.body_markers = extract_onvif_markers(body.as_str());
        assert(d@ == onvif_device(dg.src, dg.data@));
        insert_if_absent(&mut acc, d);
        assert(prev.push(d@).drop_last() =~= prev);
        i += 1;
    }
    assert(datagrams@.take(i as int) =~= datagrams@);
    acc
}

} // verus!
