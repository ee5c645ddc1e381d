//! Scores devices by how likely they are Axis products, from the evidence
//! collected about them.

use vstd::prelude::*;
use crate::arp::{table_view, Table};
use crate::model::{Confidence, Device, DeviceView, HintsView, device_views};
use crate::text::{
    chars_of, contains_chars, contains_seq, lowercase_of, starts_with, starts_with_chars,
    to_lowercase,
};

verus! {

broadcast use {vstd::string::group_string_axioms, vstd::std_specs::hash::group_hash_axioms};

/// The Axis Communications OUI prefixes (colon-separated, lower case).
pub open spec fn axis_ouis() -> Seq<Seq<char>> {
    seq![
        "00:40:8c"@,
        "ac:cc:8e"@,
        "b8:a4:4f"@,
        "d4:81:d7"@,
        "e4:3a:6e"@,
        "00:1a:07"@,
        "5c:f9:6a"@,
    ]
}

/// `sub` occurs in `s` once both are in lower case.
pub open spec fn contains_ci_spec(s: Seq<char>, sub: Seq<char>) -> bool {
    contains_seq(lowercase_of(s), lowercase_of(sub))
}

/// The lower-case form of `mac` begins with an Axis OUI.
pub open spec fn is_axis_oui_spec(mac: Seq<char>) -> bool {
    exists|i: int| 0 <= i < axis_ouis().len() && starts_with(lowercase_of(mac), #[trigger] axis_ouis()[i])
}

/// The score of the evidence: one point each for "axis" in the SSDP server
/// or HTTP server header, for body markers, and for an Axis hardware
/// address; two for an answer of the Axis CGI.
pub open spec fn score(h: HintsView) -> nat {
    (if contains_ci_spec(h.ssdp_server, "axis"@) { 1nat } else { 0nat })
    + (if contains_ci_spec(h.server_header, "axis"@) { 1nat } else { 0nat })
    + (if h.body_markers.len() > 0 { 1nat } else { 0nat })
    + (if h.mac.len() > 0 && is_axis_oui_spec(h.mac) { 1nat } else { 0nat })
    + (if h.axis_cgi { 2nat } else { 0nat })
}

/// The confidence that a score gives.
pub open spec fn confidence_for(score: nat) -> Confidence {
    if score >= 3 {
        Confidence::High
    } else if score == 2 {
        Confidence::Medium
    } else if score == 1 {
        Confidence::Low
    } else {
        Confidence::NoEvidence
    }
}

/// `d` with its hardware address taken from the ARP table if it had none
/// and the table knows its address.
pub open spec fn enriched(d: DeviceView, t: Map<u32, Seq<char>>) -> DeviceView {
    if d.hints.mac.len() == 0 && t.contains_key(d.ip) {
        DeviceView { hints: HintsView { mac: t[d.ip], ..d.hints }, ..d }
    } else {
        d
    }
}

/// `d` enriched from the table and given the confidence of its score.
pub open spec fn classified(d: DeviceView, t: Map<u32, Seq<char>>) -> DeviceView {
    let e = enriched(d, t);
    DeviceView { confidence: confidence_for(score(e.hints)), ..e }
}

/// Classifying a second time, as after the VAPIX pass when it found
/// nothing new, changes nothing: the confidence depends only on the
/// evidence, and a hardware address taken from the table stays.
pub proof fn lemma_classify_idempotent(d: DeviceView, t: Map<u32, Seq<char>>)
    ensures
        classified(classified(d, t), t) == classified(d, t),
{
}

/// Each of the seven Axis prefixes makes a hardware address an Axis one,
/// whatever its case, and no other prefix does: a hardware address whose
/// lower-case form starts with any of them earns the point for the address
/// in the score, and one that starts with none of them earns none.
pub proof fn lemma_axis_oui(h: HintsView)
    ensures
        is_axis_oui_spec(h.mac) <==> {
            let m = lowercase_of(h.mac);
            ||| starts_with(m, "00:40:8c"@)
            ||| starts_with(m, "ac:cc:8e"@)
            ||| starts_with(m, "b8:a4:4f"@)
            ||| starts_with(m, "d4:81:d7"@)
            ||| starts_with(m, "e4:3a:6e"@)
            ||| starts_with(m, "00:1a:07"@)
            ||| starts_with(m, "5c:f9:6a"@)
        },
        forall|k: int|
            0 <= k < axis_ouis().len() && starts_with(lowercase_of(h.mac), #[trigger] axis_ouis()[k])
                ==> is_axis_oui_spec(h.mac),
        h.mac.len() > 0 && is_axis_oui_spec(h.mac) ==> score(h) == score(
            HintsView { mac: Seq::empty(), ..h },
        ) + 1,
        !is_axis_oui_spec(h.mac) ==> score(h) == score(HintsView { mac: Seq::empty(), ..h }),
{
    let m = lowercase_of(h.mac);
    let o = axis_ouis();
    assert(o.len() == 7);
    if starts_with(m, "00:40:8c"@) {
        assert(starts_with(m, o[0]));
    }
    if starts_with(m, "ac:cc:8e"@) {
        assert(starts_with(m, o[1]));
    }
    if starts_with(m, "b8:a4:4f"@) {
        assert(starts_with(m, o[2]));
    }
    if starts_with(m, "d4:81:d7"@) {
        assert(starts_with(m, o[3]));
    }
    if starts_with(m, "e4:3a:6e"@) {
        assert(starts_with(m, o[4]));
    }
    if starts_with(m, "00:1a:07"@) {
        assert(starts_with(m, o[5]));
    }
    if starts_with(m, "5c:f9:6a"@) {
        assert(starts_with(m, o[6]));
    }
}

/// The confidence follows the evidence: none exactly when there is no
/// evidence at all; an answer of the Axis CGI alone gives Medium, and with
/// any other evidence High; any one other piece of evidence alone gives
/// Low; the two server names together give Medium, and with markers High.
pub proof fn lemma_confidence_evidence(h: HintsView)
    ensures
        confidence_for(score(h)) == Confidence::NoEvidence <==> {
            &&& !contains_ci_spec(h.ssdp_server, "axis"@)
            &&& !contains_ci_spec(h.server_header, "axis"@)
            &&& h.body_markers.len() == 0
            &&& !(h.mac.len() > 0 && is_axis_oui_spec(h.mac))
            &&& !h.axis_cgi
        },
        h.axis_cgi ==> (confidence_for(score(h)) == Confidence::Medium || confidence_for(score(h))
            == Confidence::High),
        h.axis_cgi && (contains_ci_spec(h.ssdp_server, "axis"@) || contains_ci_spec(
            h.server_header,
            "axis"@,
        ) || h.body_markers.len() > 0 || (h.mac.len() > 0 && is_axis_oui_spec(h.mac)))
            ==> confidence_for(score(h)) == Confidence::High,
        contains_ci_spec(h.ssdp_server, "axis"@) && contains_ci_spec(h.server_header, "axis"@)
            && h.body_markers.len() > 0 ==> confidence_for(score(h)) == Confidence::High,
        !h.axis_cgi && contains_ci_spec(h.server_header, "axis"@) && !contains_ci_spec(
            h.ssdp_server,
            "axis"@,
        ) && h.body_markers.len() == 0 && !(h.mac.len() > 0 && is_axis_oui_spec(h.mac))
            ==> confidence_for(score(h)) == Confidence::Low,
        !h.axis_cgi && contains_ci_spec(h.ssdp_server, "axis"@) && !contains_ci_spec(
            h.server_header,
            "axis"@,
        ) && h.body_markers.len() == 0 && !(h.mac.len() > 0 && is_axis_oui_spec(h.mac))
            ==> confidence_for(score(h)) == Confidence::Low,
        !h.axis_cgi && !contains_ci_spec(h.ssdp_server, "axis"@) && !contains_ci_spec(
            h.server_header,
            "axis"@,
        ) && h.body_markers.len() > 0 && !(h.mac.len() > 0 && is_axis_oui_spec(h.mac))
            ==> confidence_for(score(h)) == Confidence::Low,
        !h.axis_cgi && !contains_ci_spec(h.ssdp_server, "axis"@) && !contains_ci_spec(
            h.server_header,
            "axis"@,
        ) && h.body_markers.len() == 0 && (h.mac.len() > 0 && is_axis_oui_spec(h.mac))
            ==> confidence_for(score(h)) == Confidence::Low,
        !h.axis_cgi && contains_ci_spec(h.ssdp_server, "axis"@) && contains_ci_spec(
            h.server_header,
            "axis"@,
        ) && h.body_markers.len() == 0 && !(h.mac.len() > 0 && is_axis_oui_spec(h.mac))
            ==> confidence_for(score(h)) == Confidence::Medium,
{
}

/// Whether `substr` occurs in `s`, ignoring case.
pub fn contains_ci(s: &str, substr: &str) -> (r: bool)
    ensures
        r == contains_ci_spec(s@, substr@),
{
    let a = to_lowercase(s);
    let b = to_lowercase(substr);
    let ac = chars_of(a.as_str());
    let bc = chars_of(b.as_str());
    contains_chars(ac.as_slice(), bc.as_slice())
}

/// Whether `mac` begins with an Axis OUI, ignoring case.
pub fn is_axis_oui(mac: &str) -> (r: bool)
    ensures
        r == is_axis_oui_spec(mac@),
{
    let lower = to_lowercase(mac);
    let m = chars_of(lower.as_str());
    let ouis: [&str; 7] = ["00:40:8c", "ac:cc:8e", "b8:a4:4f", "d4:81:d7", "e4:3a:6e", "00:1a:07", "5c:f9:6a"];
    let mut i: usize = 0;
    while i < 7
        invariant
            i <= 7,
            m@ == lowercase_of(mac@),
            forall|k: int| 0 <= k < 7 ==> (#[trigger] ouis@[k])@ == axis_ouis()[k],
            forall|k: int| 0 <= k < i ==> !starts_with(m@, #[trigger] axis_ouis()[k]),
        decreases 7 - i,
    {
        let o = chars_of(ouis[i]);
        if starts_with_chars(m.as_slice(), o.as_slice()) {
            assert(starts_with(m@, axis_ouis()[i as int]));
            return true;
        }
        i += 1;
    }
    false
}

/// Sets the confidence of every device from its evidence, first taking its
/// hardware address from the ARP table where it has none.
pub fn classify(devices: &mut [Device], arp_table: &Table)
    ensures
        final(devices)@.len() == old(devices)@.len(),
        forall|i: int|
            0 <= i < old(devices)@.len() ==> (#[trigger] final(devices)@[i])@ == classified(
                old(devices)@[i]@,
                table_view(arp_table@),
            ),
{
    let n = devices.len();
    let mut i: usize = 0;
    while i < n
        invariant
            n == devices@.len(),
            devices@.len() == old(devices)@.len(),
            i <= n,
            forall|k: int|
                0 <= k < i ==> (#[trigger] devices@[k])@ == classified(
                    old(devices)@[k]@,
                    table_view(arp_table@),
                ),
            forall|k: int| i <= k < n ==> #[trigger] devices@[k] == old(devices)@[k],
        decreases n - i,
    {
        let mut d = devices[i].clone();
        let ghost orig = devices@[i as int]@;
        if d.hints.mac.as_str().is_empty() {
            match arp_table.get(&d.ip) {
                Some(mac) => {
                    d.hints.mac = mac.clone();
                },
                None => {},
            }
        }
        assert(d@ == enriched(orig, table_view(arp_table@)));
        let mut points: u32 = 0;
        if contains_ci(d.hints.ssdp_server.as_str(), "axis") {
            points += 1;
        }
        if contains_ci(d.hints.server_header.as_str(), "axis") {
            points += 1;
        }
        if d.hints.body_markers.len() > 0 {
            points += 1;
        }
        if !d.hints.mac.as_str().is_empty() && is_axis_oui(d.hints.mac.as_str()) {
            points += 1;
        }
        if d.hints.axis_cgi {
            points += 2;
        }
        assert(points == score(d@.hints));
        d.confidence = if points >= 3 {
            Confidence::High
        } else if points == 2 {
            Confidence::Medium
        } else if points == 1 {
            Confidence::Low
        } else {
            Confidence::NoEvidence
        };
        devices[i] = d;
        i += 1;
    }
}

} // verus!
