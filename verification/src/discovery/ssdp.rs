//! SSDP M-SEARCH discovery: the request, the reading of the responses, and
//! the devices they show.

use vstd::prelude::*;
use crate::discovery::{Config, Datagram, payload_views};
use crate::model::{
    Device, DeviceView, HintsView, at_ip, device_views, first_per_ip, found_at, found_by,
    has_ip, insert_if_absent, lemma_first_per_ip, lemma_found_by, new_device, stands_at,
    strictly_sorted_by_ip,
};
use crate::text::{
    chars_of, dec_digits, decode_lossy, eq_ignore_ascii_case, eq_ignore_case_chars, find,
    find_chars, lemma_find_from, lossy_utf8, push_decimal, push_str, ranges_match, split_on,
    split_ranges, starts_with, starts_with_chars, string_from_chars, trim, trim_range,
};

verus! {

broadcast use vstd::string::group_string_axioms;

/// The `MX` value of the request: the timeout in seconds, clamped to 1..=3.
pub open spec fn mx_of(secs: u64) -> u32 {
    if secs < 1 {
        1
    } else if secs > 3 {
        3
    } else {
        secs as u32
    }
}

/// The `MX` value for a discovery timeout of `secs` seconds.
pub fn ssdp_mx(secs: u64) -> (r: u32)
    ensures
        r == mx_of(secs),
{
    if secs < 1 {
        1
    } else if secs > 3 {
        3
    } else {
        secs as u32
    }
}

/// The text of the M-SEARCH request with the given `MX`.
pub open spec fn m_search_text(mx: u32) -> Seq<char> {
    "M-SEARCH * HTTP/1.1\r\nHOST: 239.255.255.250:1900\r\nMAN: \"ssdp:discover\"\r\nMX: "@
        + dec_digits(mx as nat) + "\r\nST: ssdp:all\r\n\r\n"@
}

/// The bytes of ASCII text.
pub open spec fn ascii_bytes(s: Seq<char>) -> Seq<u8> {
    s.map_values(|c: char| c as u8)
}

/// Builds the M-SEARCH payload; `mx` is the timeout in seconds.
pub fn m_search_request(mx: u32) -> (r: Vec<u8>)
    ensures
        r@ == ascii_bytes(m_search_text(mx)),
{
    let mut cs: Vec<char> = Vec::new();
    push_str(
        &mut cs,
        "M-SEARCH * HTTP/1.1\r\nHOST: 239.255.255.250:1900\r\nMAN: \"ssdp:discover\"\r\nMX: ",
    );
    push_decimal(mx as u64, &mut cs);
    push_str(&mut cs, "\r\nST: ssdp:all\r\n\r\n");
    assert(cs@ == m_search_text(mx));
    let mut out: Vec<u8> = Vec::new();
    let mut i: usize = 0;
    while i < cs.len()
        invariant
            i <= cs@.len(),
            out@ == ascii_bytes(cs@.take(i as int)),
        decreases cs@.len() - i,
    {
        out.push(cs[i] as u8);
        assert(out@ =~= ascii_bytes(cs@.take(i + 1)));
        i += 1;
    }
    assert(cs@.take(i as int) =~= cs@);
    out
}

/// The SSDP round for a discovery timeout of `timeout_secs` seconds: the
/// M-SEARCH request sent three times, 200 ms apart, to 239.255.255.250:1900.
pub fn config(timeout_secs: u64, verbose: bool) -> (c: Config)
    ensures
        c.group_ip == 0xEFFF_FFFA,
        c.group_port == 1900,
        payload_views(c.payloads@) == seq![ascii_bytes(m_search_text(mx_of(timeout_secs)))],
        c.send_count == 3,
        c.send_delay_ms == 200,
        c.recv_buf == 4096,
        c.verbose == verbose,
        c.tag@ == "ssdp"@,
{
    let mut payloads: Vec<Vec<u8>> = Vec::new();
    payloads.push(m_search_request(ssdp_mx(timeout_secs)));
    assert(payload_views(payloads@) =~= seq![ascii_bytes(m_search_text(mx_of(timeout_secs)))]);
    Config {
        group_ip: 0xEFFF_FFFA,
        group_port: 1900,
        payloads,
        send_count: 3,
        send_delay_ms: 200,
        recv_buf: 4096,
        verbose,
        tag: "ssdp",
    }
}

// ---------------------------------------------------------------------------
// Responses
// ---------------------------------------------------------------------------

/// The lines of a response: split at `\r\n`, then each piece at `\n`.
pub open spec fn ssdp_lines(text: Seq<char>) -> Seq<Seq<char>> {
    split_on(text, "\r\n"@).map_values(|l: Seq<char>| split_on(l, seq!['\n'])).flatten()
}

/// A header line split at its first colon, both sides trimmed.
pub open spec fn header_of(line: Seq<char>) -> Option<(Seq<char>, Seq<char>)> {
    match find(line, seq![':']) {
        Some(k) => Some((trim(line.take(k)), trim(line.skip(k + 1)))),
        None => None,
    }
}

/// The headers of the lines up to the first empty one; lines without a
/// colon are passed over.
pub open spec fn headers_of(ls: Seq<Seq<char>>) -> Seq<(Seq<char>, Seq<char>)>
    decreases ls.len(),
{
    if ls.len() == 0 || ls[0].len() == 0 {
        Seq::empty()
    } else {
        let rest = headers_of(ls.drop_first());
        match header_of(ls[0]) {
            Some(h) => seq![h] + rest,
            None => rest,
        }
    }
}

/// The value of the first header named `server` in any case, or nothing.
pub open spec fn server_of(hs: Seq<(Seq<char>, Seq<char>)>) -> Seq<char>
    decreases hs.len(),
{
    if hs.len() == 0 {
        Seq::empty()
    } else if eq_ignore_ascii_case(hs[0].0, "server"@) {
        hs[0].1
    } else {
        server_of(hs.drop_first())
    }
}

/// What a response says: none unless its first line starts with `HTTP/`;
/// otherwise its headers and its `SERVER` value.
pub open spec fn ssdp_response(data: Seq<u8>) -> Option<(Seq<(Seq<char>, Seq<char>)>, Seq<char>)> {
    response_of_text(lossy_utf8(data))
}

/// The headers and `SERVER` value of the text of a response, or nothing if
/// its first line does not begin with `HTTP/`.
pub open spec fn response_of_text(text: Seq<char>) -> Option<
    (Seq<(Seq<char>, Seq<char>)>, Seq<char>),
> {
    let ls = ssdp_lines(text);
    if ls.len() == 0 || !starts_with(ls[0], "HTTP/"@) {
        None
    } else {
        let hs = headers_of(ls.drop_first());
        Some((hs, server_of(hs)))
    }
}

/// The views of a list of string pairs.
pub open spec fn pair_views(v: Seq<(String, String)>) -> Seq<(Seq<char>, Seq<char>)> {
    v.map_values(|p: (String, String)| (p.0@, p.1@))
}

/// The view of what `parse_response` returns.
pub open spec fn response_view(r: Option<(Vec<(String, String)>, String)>) -> Option<
    (Seq<(Seq<char>, Seq<char>)>, Seq<char>),
> {
    match r {
        Some((hs, server)) => Some((pair_views(hs@), server@)),
        None => None,
    }
}

/// The bounds of the lines of a response within its text.
fn response_lines(cs: &[char]) -> (r: Vec<(usize, usize)>)
    ensures
        ranges_match(cs@, r@, ssdp_lines(cs@)),
{
    let crlf = chars_of("\r\n");
    proof {
        reveal_strlit("\r\n");
    }
    let nl: Vec<char> = vec!['\n'];
    assert(nl@ =~= seq!['\n']);
    let outer = split_ranges(cs, crlf.as_slice());
    let ghost pieces = split_on(cs@, "\r\n"@);
    let ghost f = |l: Seq<char>| split_on(l, seq!['\n']);
    let mut all: Vec<(usize, usize)> = Vec::new();
    let mut i: usize = 0;
    assert(pieces.map_values(f).take(0).flatten() =~= Seq::<Seq<char>>::empty());
    while i < outer.len()
        invariant
            i <= outer@.len(),
            nl@ == seq!['\n'],
            pieces == split_on(cs@, "\r\n"@),
            f == (|l: Seq<char>| split_on(l, seq!['\n'])),
            ranges_match(cs@, outer@, pieces),
            ranges_match(cs@, all@, pieces.map_values(f).take(i as int).flatten()),
        decreases outer@.len() - i,
    {
        let (a, b) = outer[i];
        let piece = &cs[a..b];
        assert(piece@ == pieces[i as int]);
        let inner = split_ranges(piece, nl.as_slice());
        let ghost before = pieces.map_values(f).take(i as int).flatten();
        let ghost sub = split_on(piece@, seq!['\n']);
        let ghost start = all@.len();
        let mut j: usize = 0;
        while j < inner.len()
            invariant
                j <= inner@.len(),
                a <= b <= cs@.len(),
                piece@ == cs@.subrange(a as int, b as int),
                ranges_match(piece@, inner@, sub),
                ranges_match(cs@, all@, before + sub.take(j as int)),
            decreases inner@.len() - j,
        {
            let (x, y) = inner[j];
            assert(cs@.subrange(a + x, a + y) =~= piece@.subrange(x as int, y as int));
            all.push((a + x, a + y));
            assert(before + sub.take(j + 1) =~= (before + sub.take(j as int)).push(sub[j as int]));
            j += 1;
        }
        proof {
            assert(sub.take(j as int) =~= sub);
            assert(pieces.map_values(f).take(i + 1) =~= pieces.map_values(f).take(i as int).push(
                sub,
            ));
            pieces.map_values(f).take(i as int).lemma_flatten_push(sub);
        }
        i += 1;
    }
    assert(pieces.map_values(f).take(i as int) =~= pieces.map_values(f));
    all
}

/// Parses a raw SSDP response: its headers and its `SERVER` value, or
/// nothing if the payload is not an HTTP-style response.
pub fn parse_response(data: &[u8]) -> (r: Option<(Vec<(String, String)>, String)>)
    ensures
        response_view(r) == ssdp_response(data@),
{
    let text = decode_lossy(data);
    parse_response_text(text.as_str())
}

/// Reads the text of an SSDP response: its headers and its `SERVER` value,
/// or nothing if it is not an HTTP-style response.
pub fn parse_response_text(text: &str) -> (r: Option<(Vec<(String, String)>, String)>)
    ensures
        response_view(r) == response_of_text(text@),
{
    let cs = chars_of(text);
    let lines = response_lines(cs.as_slice());
    let ghost ls = ssdp_lines(cs@);
    if lines.len() == 0 {
        return None;
    }
    let status = &cs[lines[0].0..lines[0].1];
    if !starts_with_chars(status, chars_of("HTTP/").as_slice()) {
        return None;
    }
    let colon: Vec<char> = vec![':'];
    assert(colon@ =~= seq![':']);
    let mut headers: Vec<(String, String)> = Vec::new();
    let mut j: usize = 1;
    assert(ls.drop_first() =~= ls.skip(1));
    assert(pair_views(headers@) + headers_of(ls.skip(1)) =~= headers_of(ls.skip(1)));
    while j < lines.len()
        invariant
            1 <= j <= lines@.len(),
            colon@ == seq![':'],
            ls == ssdp_lines(cs@),
            ranges_match(cs@, lines@, ls),
            headers_of(ls.skip(1)) == pair_views(headers@) + headers_of(ls.skip(j as int)),
        ensures
            headers_of(ls.skip(1)) == pair_views(headers@),
        decreases lines@.len() - j,
    {
        let (a, b) = lines[j];
        let line = &cs[a..b];
        assert(line@ == ls[j as int]);
        assert(ls.skip(j as int)[0] == ls[j as int]);
        if a == b {
            assert(headers_of(ls.skip(j as int)) =~= Seq::empty());
            assert(pair_views(headers@) + Seq::<(Seq<char>, Seq<char>)>::empty() =~= pair_views(
                headers@,
            ));
            break;
        }
        assert(ls.skip(j as int).drop_first() =~= ls.skip(j + 1));
        match find_chars(line, colon.as_slice()) {
            Some(k) => {
                proof {
                    lemma_find_from(line@, colon@, 0);
                }
                let before = &line[0..k];
                let after = &line[k + 1..line.len()];
                assert(before@ =~= line@.take(k as int));
                assert(after@ =~= line@.skip(k + 1));
                let (p, q) = trim_range(before);
                let (u, v) = trim_range(after);
                let key = string_from_chars(&before[p..q]);
                let value = string_from_chars(&after[u..v]);
                let ghost old_h = pair_views(headers@);
                headers.push((key, value));
                assert(pair_views(headers@) =~= old_h.push((trim(line@.take(k as int)), trim(line@.skip(k + 1)))));
                assert(old_h + (seq![(trim(line@.take(k as int)), trim(line@.skip(k + 1)))] + headers_of(ls.skip(j + 1)))
                    =~= pair_views(headers@) + headers_of(ls.skip(j + 1)));
            },
            None => {},
        }
        j += 1;
        if j == lines.len() {
            assert(ls.skip(j as int) =~= Seq::<Seq<char>>::empty());
            assert(pair_views(headers@) + Seq::<(Seq<char>, Seq<char>)>::empty() =~= pair_views(
                headers@,
            ));
        }
    }
    let ghost hs = pair_views(headers@);
    assert(hs.skip(0) =~= hs);
    assert(headers_of(ls.drop_first()) == hs);
    assert(response_of_text(text@) == Some((hs, server_of(hs))));
    let server_name = chars_of("server");
    let mut server = String::new();
    let mut m: usize = 0;
    while m < headers.len()
        invariant
            m <= headers@.len(),
            hs == pair_views(headers@),
            server_name@ == "server"@,
            server@ == Seq::<char>::empty(),
            server_of(hs) == server_of(hs.skip(m as int)),
            response_of_text(text@) == Some((hs, server_of(hs))),
        decreases headers@.len() - m,
    {
        let kc = chars_of(headers[m].0.as_str());
        assert(hs.skip(m as int)[0] == hs[m as int]);
        assert(hs[m as int] == (headers@[m as int].0@, headers@[m as int].1@));
        if eq_ignore_case_chars(kc.as_slice(), server_name.as_slice()) {
            let found = headers[m].1.clone();
            return Some((headers, found));
        }
        assert(hs.skip(m as int).drop_first() =~= hs.skip(m + 1));
        m += 1;
    }
    assert(hs.skip(m as int) =~= Seq::<(Seq<char>, Seq<char>)>::empty());
    Some((headers, server))
}

/// The device that an SSDP response with the given server value from `src`
/// stands for.
pub open spec fn ssdp_device(src: u32, server: Seq<char>) -> DeviceView {
    let d = new_device(src, "ssdp"@);
    DeviceView { hints: HintsView { ssdp_server: server, ..d.hints }, ..d }
}

/// One device for each datagram that is an SSDP response, in order.
pub open spec fn ssdp_candidates(dgs: Seq<Datagram>) -> Seq<DeviceView>
    decreases dgs.len(),
{
    if dgs.len() == 0 {
        Seq::empty()
    } else {
        let prev = ssdp_candidates(dgs.drop_last());
        match ssdp_response(dgs.last().data@) {
            Some((_, server)) => prev.push(ssdp_device(dgs.last().src, server)),
            None => prev,
        }
    }
}

/// What a datagram stands for: the device of an SSDP response, nothing for
/// any other payload.
pub open spec fn ssdp_found() -> spec_fn(Datagram) -> Option<DeviceView> {
    |dg: Datagram|
        match ssdp_response(dg.data@) {
            Some(p) => Some(ssdp_device(dg.src, p.1)),
            None => None,
        }
}

proof fn lemma_ssdp_candidates(dgs: Seq<Datagram>)
    ensures
        ssdp_candidates(dgs) == found_by(dgs, ssdp_found()),
    decreases dgs.len(),
{
    if dgs.len() > 0 {
        lemma_ssdp_candidates(dgs.drop_last());
    }
}

/// The SSDP devices are one per address, in ascending order, at exactly
/// the addresses from which an SSDP response came; each is the device of
/// the first response from its address (its `SERVER` value).
pub proof fn lemma_ssdp_devices(dgs: Seq<Datagram>)
    ensures
        strictly_sorted_by_ip(first_per_ip(ssdp_candidates(dgs))),
        forall|ip: u32|
            has_ip(first_per_ip(ssdp_candidates(dgs)), ip) <==> exists|j: int|
                0 <= j < dgs.len() && (#[trigger] dgs[j]).src == ip && ssdp_response(dgs[j].data@) is Some,
        forall|i: int|
            0 <= i < first_per_ip(ssdp_candidates(dgs)).len() ==> {
                let d = #[trigger] first_per_ip(ssdp_candidates(dgs))[i];
                let from = dgs.filter(found_at(ssdp_found(), d.ip));
                &&& from.len() > 0
                &&& from[0].src == d.ip
                &&& ssdp_response(from[0].data@) is Some
                &&& d == ssdp_device(from[0].src, (ssdp_response(from[0].data@)->0).1)
            },
{
    let c = ssdp_candidates(dgs);
    let r = first_per_ip(c);
    lemma_ssdp_candidates(dgs);
    lemma_found_by(dgs, ssdp_found());
    lemma_first_per_ip(c);
    assert forall|ip: u32| has_ip(r, ip) <==> exists|j: int|
        0 <= j < dgs.len() && (#[trigger] dgs[j]).src == ip && ssdp_response(dgs[j].data@) is Some by {
        if has_ip(c, ip) {
            assert(has_ip(found_by(dgs, ssdp_found()), ip));
            let j = choose|j: int| 0 <= j < dgs.len() && #[trigger] stands_at(ssdp_found(), ip, dgs[j]);
            assert(dgs[j].src == ip);
        }
        if exists|j: int| 0 <= j < dgs.len() && (#[trigger] dgs[j]).src == ip && ssdp_response(dgs[j].data@) is Some {
            let j = choose|j: int| 0 <= j < dgs.len() && (#[trigger] dgs[j]).src == ip && ssdp_response(dgs[j].data@) is Some;
            assert(stands_at(ssdp_found(), ip, dgs[j]));
        }
    }
    assert forall|i: int| 0 <= i < r.len() implies {
        let d = #[trigger] r[i];
        let from = dgs.filter(found_at(ssdp_found(), d.ip));
        &&& from.len() > 0
        &&& from[0].src == d.ip
        &&& ssdp_response(from[0].data@) is Some
        &&& d == ssdp_device(from[0].src, (ssdp_response(from[0].data@)->0).1)
    } by {
        let d = r[i];
        let f = found_at(ssdp_found(), d.ip);
        let from = dgs.filter(f);
        assert(has_ip(r, d.ip));
        assert(has_ip(found_by(dgs, ssdp_found()), d.ip));
        let j = choose|j: int| 0 <= j < dgs.len() && #[trigger] stands_at(ssdp_found(), d.ip, dgs[j]);
        assert(f(dgs[j]));
        dgs.lemma_filter_contains(f, j);
        assert(from.len() > 0);
        broadcast use vstd::seq_lib::group_filter_ensures;
        assert(f(from[0]));
        assert(found_by(dgs, ssdp_found()).filter(at_ip(d.ip)) == from.map_values(
            crate::model::device_of(ssdp_found()),
        ));
    }
}

/// The devices that the received SSDP responses show: the first response
/// per address wins; one device per address, in ascending order.
pub fn ssdp_devices(datagrams: &[Datagram]) -> (r: Vec<Device>)
    ensures
        device_views(r@) == first_per_ip(ssdp_candidates(datagrams@)),
{
    let mut acc: Vec<Device> = Vec::new();
    let mut i: usize = 0;
    assert(datagrams@.take(0) =~= Seq::<Datagram>::empty());
    while i < datagrams.len()
        invariant
            i <= datagrams@.len(),
            device_views(acc@) == first_per_ip(ssdp_candidates(datagrams@.take(i as int))),
        decreases datagrams@.len() - i,
    {
        let dg = &datagrams[i];
        assert(datagrams@.take(i + 1).drop_last() =~= datagrams@.take(i as int));
        assert(datagrams@.take(i + 1).last() == datagrams@[i as int]);
        let ghost prev = ssdp_candidates(datagrams@.take(i as int));
        match parse_response(dg.data.as_slice()) {
            Some((_, server)) => {
                let mut d = Device::new(dg.src, "ssdp");
                d.hints.ssdp_server = server;
                assert(d@ == ssdp_device(dg.src, (ssdp_response(dg.data@)->0).1));
                insert_if_absent(&mut acc, d);
                assert(prev.push(d@).drop_last() =~= prev);
            },
            None => {},
        }
        i += 1;
    }
    assert(datagrams@.take(i as int) =~= datagrams@);
    acc
}

} // verus!
