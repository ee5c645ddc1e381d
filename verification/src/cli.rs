//! What the command line asks for: the ports of the subnet scan, the
//! number of workers, and which devices are reported.

use vstd::prelude::*;
use crate::ipv4::{digits_value, is_digit};
use crate::model::{Confidence, Device, DeviceView, device_views, port_leq, sort_ports};
use crate::text::{chars_of, push_str, split_on, split_ranges, string_from_chars, trim, trim_range};

verus! {

broadcast use vstd::string::group_string_axioms;

/// What `Debug` for `str` of std writes for the given characters.
pub uninterp spec fn str_debug_of(s: Seq<char>) -> Seq<char>;

/// Calls `Debug` for `str` through `format!("{:?}", ..)`; the result is the
/// name `str_debug_of` of the argument.  The quoting and the escapes that
/// std writes are not stated.
#[verifier::external_body]
fn debug_str(s: &str) -> (r: String)
    ensures
        r@ == str_debug_of(s@),
{
    format!("{:?}", s)
}

/// The digits of an unsigned number: the text after an optional `+`.
pub open spec fn unsigned_digits(t: Seq<char>) -> Seq<char> {
    if t.len() > 0 && t[0] == '+' {
        t.drop_first()
    } else {
        t
    }
}

/// Every character of `d` is a decimal digit.
pub open spec fn all_digits(d: Seq<char>) -> bool {
    forall|i: int| 0 <= i < d.len() ==> is_digit(#[trigger] d[i])
}

/// What `str::parse::<u32>` of std reads: an optional `+`, then one or more
/// decimal digits whose value fits in 32 bits.
pub open spec fn u32_value(t: Seq<char>) -> Option<u32> {
    let d = unsigned_digits(t);
    if d.len() > 0 && all_digits(d) && digits_value(d) <= 0xffff_ffff {
        Some(digits_value(d) as u32)
    } else {
        None
    }
}

/// The port that a field names: a number from 1 to 65535.
pub open spec fn port_value(t: Seq<char>) -> Option<u16> {
    match u32_value(t) {
        Some(n) => if 1 <= n <= 65535 {
            Some(n as u16)
        } else {
            None
        },
        None => None,
    }
}

/// The fields of a port list: the pieces between commas, trimmed.
pub open spec fn port_fields(csv: Seq<char>) -> Seq<Seq<char>> {
    split_on(csv, seq![',']).map_values(|p: Seq<char>| trim(p))
}

/// The error for a field that names no port.
pub open spec fn invalid_port(t: Seq<char>) -> Seq<char> {
    "invalid port: "@ + str_debug_of(t)
}

/// The ports of the given fields, each once in the order first named, with
/// empty fields skipped; or the error of the first field that names none.
pub open spec fn ports_acc(fields: Seq<Seq<char>>) -> Result<Seq<u16>, Seq<char>>
    decreases fields.len(),
{
    if fields.len() == 0 {
        Ok(Seq::empty())
    } else {
        match ports_acc(fields.drop_last()) {
            Err(e) => Err(e),
            Ok(acc) => {
                let f = fields.last();
                if f.len() == 0 {
                    Ok(acc)
                } else {
                    match port_value(f) {
                        Some(p) => Ok(
                            if acc.contains(p) {
                                acc
                            } else {
                                acc.push(p)
                            },
                        ),
                        None => Err(invalid_port(f)),
                    }
                }
            },
        }
    }
}

/// The ports of a comma-separated list, in ascending order and each once;
/// an error for a field that names no port, or for a list without ports.
pub open spec fn ports_of(csv: Seq<char>) -> Result<Seq<u16>, Seq<char>> {
    match ports_acc(port_fields(csv)) {
        Err(e) => Err(e),
        Ok(acc) => if acc.len() == 0 {
            Err("no valid ports specified"@)
        } else {
            Ok(acc.sort_by(port_leq()))
        },
    }
}

/// The content of a result of `parse_ports`.
pub open spec fn ports_result(r: Result<Vec<u16>, String>) -> Result<Seq<u16>, Seq<char>> {
    match r {
        Ok(v) => Ok(v@),
        Err(e) => Err(e@),
    }
}

/// Once a field is refused, the error stays whatever fields follow.
proof fn lemma_ports_acc_err(fields: Seq<Seq<char>>, j: int)
    requires
        0 <= j <= fields.len(),
        ports_acc(fields.take(j)) is Err,
    ensures
        ports_acc(fields) == ports_acc(fields.take(j)),
    decreases fields.len() - j,
{
    if j < fields.len() {
        assert(fields.take(j + 1).drop_last() =~= fields.take(j));
        lemma_ports_acc_err(fields, j + 1);
    } else {
        assert(fields.take(j) =~= fields);
    }
}

/// The number in `t` as `str::parse::<u32>` reads it.
fn u32_of(t: &[char]) -> (r: Option<u32>)
    ensures
        r == u32_value(t@),
{
    let start: usize = if t.len() > 0 && t[0] == '+' {
        1
    } else {
        0
    };
    let ghost d = unsigned_digits(t@);
    assert(d =~= t@.skip(start as int));
    if start == t.len() {
        return None;
    }
    let mut v: u64 = 0;
    let mut over = false;
    let mut i: usize = start;
    assert(d.take(0) =~= Seq::<char>::empty());
    while i < t.len()
        invariant
            start <= i <= t@.len(),
            d == t@.skip(start as int),
            d == unsigned_digits(t@),
            forall|k: int| 0 <= k < i - start ==> is_digit(#[trigger] d[k]),
            !over ==> v == digits_value(d.take(i - start)),
            !over ==> v <= 0xffff_ffff,
            over ==> digits_value(d.take(i - start)) > 0xffff_ffff,
        decreases t@.len() - i,
    {
        let c = t[i];
        assert(d[i - start] == c);
        let u = c as u32;
        if u < 48 || u > 57 {
            assert(!is_digit(d[i - start]));
            assert(!all_digits(d));
            return None;
        }
        assert(d.take(i - start + 1).drop_last() =~= d.take(i - start));
        let dv = (u - 48) as u64;
        if !over {
            v = v * 10 + dv;
            if v > 0xffff_ffff {
                over = true;
            }
        }
        i += 1;
    }
    assert(d.take(i - start) =~= d);
    if over {
        None
    } else {
        Some(v as u32)
    }
}

/// The error text for a field that names no port.
fn invalid_port_text(t: &[char]) -> (r: String)
    ensures
        r@ == invalid_port(t@),
{
    let field = string_from_chars(t);
    let quoted = debug_str(field.as_str());
    let mut out: Vec<char> = Vec::new();
    push_str(&mut out, "invalid port: ");
    push_str(&mut out, quoted.as_str());
    string_from_chars(out.as_slice())
}

/// Parses a comma-separated port list, deduplicating and sorting it; a
/// field that is not a number from 1 to 65535 is refused, and so is a list
/// without any port.
pub fn parse_ports(csv: &str) -> (r: Result<Vec<u16>, String>)
    ensures
        ports_result(r) == ports_of(csv@),
{
    let cs = chars_of(csv);
    let comma: Vec<char> = vec![','];
    assert(comma@ =~= seq![',']);
    let parts = split_ranges(cs.as_slice(), comma.as_slice());
    let ghost fields = port_fields(csv@);
    let mut ports: Vec<u16> = Vec::new();
    let mut k: usize = 0;
    assert(fields.take(0) =~= Seq::<Seq<char>>::empty());
    while k < parts.len()
        invariant
            cs@ == csv@,
            fields == port_fields(csv@),
            fields.len() == parts@.len(),
            crate::text::ranges_match(cs@, parts@, split_on(csv@, seq![','])),
            k <= parts@.len(),
            ports_acc(fields.take(k as int)) == Ok::<Seq<u16>, Seq<char>>(ports@),
        decreases parts@.len() - k,
    {
        let (a, b) = parts[k];
        let piece = &cs[a..b];
        assert(piece@ == split_on(csv@, seq![','])[k as int]);
        let (ta, tb) = trim_range(piece);
        let f = &piece[ta..tb];
        assert(f@ =~= fields[k as int]);
        assert(fields.take(k + 1).drop_last() =~= fields.take(k as int));
        assert(fields.take(k + 1).last() == fields[k as int]);
        if f.len() > 0 {
            let ok = match u32_of(f) {
                Some(n) => 1 <= n && n <= 65535,
                None => false,
            };
            if !ok {
                proof {
                    lemma_ports_acc_err(fields, k + 1);
                }
                return Err(invalid_port_text(f));
            }
            let n = match u32_of(f) {
                Some(n) => n,
                None => 0,
            };
            let p = n as u16;
            let mut seen = false;
            let mut j: usize = 0;
            while j < ports.len()
                invariant
                    j <= ports@.len(),
                    seen == exists|m: int| 0 <= m < j && ports@[m] == p,
                decreases ports@.len() - j,
            {
                if ports[j] == p {
                    seen = true;
                }
                j += 1;
            }
            assert(seen == ports@.contains(p));
            if !seen {
                ports.push(p);
            }
        }
        k += 1;
    }
    assert(fields.take(k as int) =~= fields);
    if ports.len() == 0 {
        return Err("no valid ports specified".to_owned());
    }
    Ok(sort_ports(&ports))
}

/// The ports gathered so far are distinct and none is zero.
proof fn lemma_ports_acc_distinct(fields: Seq<Seq<char>>)
    ensures
        ports_acc(fields) matches Ok(acc) ==> {
            &&& acc.no_duplicates()
            &&& forall|i: int| 0 <= i < acc.len() ==> acc[i] >= 1
        },
    decreases fields.len(),
{
    if fields.len() > 0 {
        lemma_ports_acc_distinct(fields.drop_last());
    }
}

/// A port list that is accepted gives at least one port, every port from
/// 1 to 65535 (they are `u16` and not zero), in strictly ascending order,
/// so each port once.
pub proof fn lemma_parse_ports_sorted(csv: Seq<char>)
    ensures
        ports_of(csv) matches Ok(v) ==> {
            &&& v.len() > 0
            &&& forall|i: int| 0 <= i < v.len() ==> v[i] >= 1
            &&& forall|i: int, j: int| 0 <= i < j < v.len() ==> v[i] < v[j]
        },
{
    broadcast use vstd::seq_lib::group_to_multiset_ensures;

    lemma_ports_acc_distinct(port_fields(csv));
    if let Ok(acc) = ports_acc(port_fields(csv)) {
        if acc.len() > 0 {
            let v = acc.sort_by(port_leq());
            assert(vstd::relations::total_ordering(port_leq()));
            acc.lemma_sort_by_ensures(port_leq());
            acc.lemma_multiset_has_no_duplicates();
            v.lemma_multiset_has_no_duplicates_conv();
            assert(v.len() == acc.len()) by {
                assert(v.to_multiset().len() == acc.to_multiset().len());
            }
            assert forall|i: int| 0 <= i < v.len() implies v[i] >= 1 by {
                assert(v.contains(v[i]));
                assert(acc.contains(v[i]));
            }
            assert forall|i: int, j: int| 0 <= i < j < v.len() implies v[i] < v[j] by {
                assert((port_leq())(v[i], v[j]));
            }
        }
    }
}

/// The ports gathered from the fields are exactly the ports that some
/// field names.
proof fn lemma_ports_acc_named(fields: Seq<Seq<char>>)
    ensures
        ports_acc(fields) matches Ok(acc) ==> forall|p: u16|
            acc.contains(p) <==> exists|i: int|
                0 <= i < fields.len() && port_value(#[trigger] fields[i]) == Some(p),
    decreases fields.len(),
{
    if fields.len() > 0 {
        let prev = fields.drop_last();
        lemma_ports_acc_named(prev);
        if let Ok(acc) = ports_acc(fields) {
            assert(ports_acc(prev) is Ok);
            let pacc = ports_acc(prev)->Ok_0;
            let f = fields.last();
            assert(f.len() == 0 ==> port_value(f) is None) by {
                if f.len() == 0 {
                    assert(unsigned_digits(f).len() == 0);
                }
            }
            assert forall|p: u16| acc.contains(p) <==> (pacc.contains(p) || port_value(f) == Some(p)) by {
                if f.len() > 0 && port_value(f) is Some && !pacc.contains(port_value(f)->0) {
                    let q = port_value(f)->0;
                    assert(acc == pacc.push(q));
                    if acc.contains(p) {
                        let k = choose|k: int| 0 <= k < acc.len() && acc[k] == p;
                        if k < pacc.len() {
                            assert(pacc[k] == p);
                        }
                    }
                    if pacc.contains(p) {
                        let k = choose|k: int| 0 <= k < pacc.len() && pacc[k] == p;
                        assert(acc[k] == p);
                    }
                    if p == q {
                        assert(acc[acc.len() - 1] == p);
                    }
                } else {
                    assert(acc == pacc);
                }
            }
            assert forall|p: u16| (exists|i: int|
                0 <= i < fields.len() && port_value(#[trigger] fields[i]) == Some(p)) <==> ((exists|i: int|
                0 <= i < prev.len() && port_value(#[trigger] prev[i]) == Some(p)) || port_value(f) == Some(p)) by {
                if exists|i: int| 0 <= i < fields.len() && port_value(#[trigger] fields[i]) == Some(p) {
                    let i = choose|i: int| 0 <= i < fields.len() && port_value(#[trigger] fields[i]) == Some(p);
                    if i < prev.len() {
                        assert(prev[i] == fields[i]);
                    }
                }
                if exists|i: int| 0 <= i < prev.len() && port_value(#[trigger] prev[i]) == Some(p) {
                    let i = choose|i: int| 0 <= i < prev.len() && port_value(#[trigger] prev[i]) == Some(p);
                    assert(prev[i] == fields[i]);
                }
                if port_value(f) == Some(p) {
                    assert(fields[fields.len() - 1] == f);
                }
            }
        }
    }
}

/// An accepted port list holds exactly the ports that its fields name: a
/// port is in the result exactly when some field between the commas,
/// trimmed, names it; none is left out or added.
pub proof fn lemma_parse_ports_named(csv: Seq<char>)
    ensures
        ports_of(csv) matches Ok(v) ==> forall|p: u16|
            v.contains(p) <==> exists|i: int|
                0 <= i < port_fields(csv).len() && port_value(#[trigger] port_fields(csv)[i]) == Some(p),
{
    broadcast use vstd::seq_lib::group_to_multiset_ensures;

    lemma_ports_acc_named(port_fields(csv));
    if let Ok(acc) = ports_acc(port_fields(csv)) {
        if acc.len() > 0 {
            let v = acc.sort_by(port_leq());
            assert(vstd::relations::total_ordering(port_leq()));
            acc.lemma_sort_by_ensures(port_leq());
            assert forall|p: u16| v.contains(p) <==> acc.contains(p) by {
                if v.contains(p) {
                    assert(v.to_multiset().count(p) > 0);
                }
                if acc.contains(p) {
                    assert(acc.to_multiset().count(p) > 0);
                }
            }
        }
    }
}

/// A field is acceptable: empty, or naming a port.
pub open spec fn field_ok(f: Seq<char>) -> bool {
    f.len() == 0 || port_value(f) is Some
}

/// The fields are gathered without error exactly when each is acceptable,
/// and then some port is gathered exactly when some field is not empty.
proof fn lemma_ports_acc_ok(fields: Seq<Seq<char>>)
    ensures
        ports_acc(fields) is Ok <==> forall|i: int| 0 <= i < fields.len() ==> field_ok(#[trigger] fields[i]),
        ports_acc(fields) matches Ok(acc) ==> (acc.len() > 0 <==> exists|i: int|
            0 <= i < fields.len() && (#[trigger] fields[i]).len() > 0),
    decreases fields.len(),
{
    if fields.len() > 0 {
        let prev = fields.drop_last();
        lemma_ports_acc_ok(prev);
        assert forall|i: int| 0 <= i < prev.len() implies prev[i] == fields[i] by {}
        if !(forall|i: int| 0 <= i < fields.len() ==> field_ok(#[trigger] fields[i])) {
            let i = choose|i: int| 0 <= i < fields.len() && !field_ok(#[trigger] fields[i]);
            if i < prev.len() {
                assert(!field_ok(prev[i]));
            }
        }
        if ports_acc(prev) matches Ok(acc) {
            if exists|i: int| 0 <= i < fields.len() && (#[trigger] fields[i]).len() > 0 {
                let i = choose|i: int| 0 <= i < fields.len() && (#[trigger] fields[i]).len() > 0;
                if i < prev.len() {
                    assert(prev[i].len() > 0);
                }
            }
            if exists|i: int| 0 <= i < prev.len() && (#[trigger] prev[i]).len() > 0 {
                let i = choose|i: int| 0 <= i < prev.len() && (#[trigger] prev[i]).len() > 0;
                assert(fields[i].len() > 0);
            }
        }
    }
}

/// A port list is accepted exactly when every field between its commas,
/// trimmed, is empty or names a port from 1 to 65535, and some field is
/// not empty.
pub proof fn lemma_parse_ports_accepts(csv: Seq<char>)
    ensures
        ports_of(csv) is Ok <==> {
            &&& forall|i: int|
                0 <= i < port_fields(csv).len() ==> field_ok(#[trigger] port_fields(csv)[i])
            &&& exists|i: int| 0 <= i < port_fields(csv).len() && (#[trigger] port_fields(csv)[i]).len() > 0
        },
{
    lemma_ports_acc_ok(port_fields(csv));
}

/// The number of workers used: the number asked for, kept within 1..=1024.
pub fn worker_count(requested: usize) -> (r: usize)
    ensures
        r == (if requested < 1 {
            1
        } else if requested > 1024 {
            1024
        } else {
            requested
        }),
{
    if requested < 1 {
        1
    } else if requested > 1024 {
        1024
    } else {
        requested
    }
}

/// A device is reported by default when some evidence points to Axis.
pub open spec fn is_detected(d: DeviceView) -> bool {
    d.confidence != Confidence::NoEvidence
}

/// The devices of `ds` reported by default, in order.
pub open spec fn detected(ds: Seq<DeviceView>) -> Seq<DeviceView> {
    ds.filter(|d: DeviceView| is_detected(d))
}

/// Keeping the detected devices keeps exactly the devices whose confidence
/// is Low, Medium or High, and drops exactly those without evidence.
pub proof fn lemma_detected_kept(ds: Seq<DeviceView>)
    ensures
        forall|x: DeviceView|
            #[trigger] detected(ds).contains(x) <==> (ds.contains(x) && (x.confidence
                == Confidence::Low || x.confidence == Confidence::Medium || x.confidence
                == Confidence::High)),
        forall|i: int|
            0 <= i < ds.len() && ds[i].confidence != Confidence::NoEvidence ==> #[trigger] detected(
                ds,
            ).contains(ds[i]),
        forall|i: int|
            0 <= i < detected(ds).len() ==> (#[trigger] detected(ds)[i]).confidence
                != Confidence::NoEvidence,
{
    broadcast use vstd::seq_lib::group_filter_ensures;

    let f = |d: DeviceView| is_detected(d);
    assert(detected(ds) == ds.filter(f));
    assert forall|x: DeviceView| #[trigger] detected(ds).contains(x) <==> (ds.contains(x) && (
    x.confidence == Confidence::Low || x.confidence == Confidence::Medium || x.confidence
        == Confidence::High)) by {
        if ds.filter(f).contains(x) {
            ds.lemma_filter_contains_rev(f, x);
            let i = choose|i: int| 0 <= i < ds.filter(f).len() && ds.filter(f)[i] == x;
            assert(f(ds.filter(f)[i]));
        }
        if ds.contains(x) && x.confidence != Confidence::NoEvidence {
            let i = choose|i: int| 0 <= i < ds.len() && ds[i] == x;
            assert(f(ds[i]));
        }
    }
    assert forall|i: int| 0 <= i < detected(ds).len() implies (#[trigger] detected(ds)[i]).confidence
        != Confidence::NoEvidence by {
        assert(f(ds.filter(f)[i]));
    }
}

/// The devices with some confidence of being Axis products, in order.
pub fn detected_only(devices: Vec<Device>) -> (r: Vec<Device>)
    ensures
        device_views(r@) == device_views(devices@).filter(|d: DeviceView| is_detected(d)),
        device_views(r@) == detected(device_views(devices@)),
{
    let ghost all = device_views(devices@);
    let mut devices = devices;
    let mut out: Vec<Device> = Vec::new();
    let mut n: usize = 0;
    let total = devices.len();
    assert(all.len() == total);
    assert(all.take(0).filter(|d: DeviceView| is_detected(d)) =~= Seq::<DeviceView>::empty()) by {
        reveal(Seq::filter);
    }
    while devices.len() > 0
        invariant
            n + devices@.len() == all.len(),
            all.len() <= usize::MAX,
            device_views(devices@) == all.skip(n as int),
            device_views(out@) == all.take(n as int).filter(|d: DeviceView| is_detected(d)),
        decreases devices@.len(),
    {
        let ghost before = devices@;
        assert(device_views(before)[0] == before[0]@);
        let d = devices.remove(0);
        assert(device_views(devices@) =~= device_views(before).drop_first());
        assert(d@ == all[n as int]);
        assert(all.take(n + 1).drop_last() =~= all.take(n as int));
        assert(all.take(n + 1).filter(|d: DeviceView| is_detected(d)) == if is_detected(d@) {
            all.take(n as int).filter(|d: DeviceView| is_detected(d)).push(d@)
        } else {
            all.take(n as int).filter(|d: DeviceView| is_detected(d))
        }) by {
            reveal(Seq::filter);
        }
        if d.confidence != Confidence::NoEvidence {
            let ghost old_out = out@;
            out.push(d);
            assert(device_views(out@) =~= device_views(old_out).push(d@));
        }
        assert(device_views(devices@) =~= all.skip(n + 1));
        n += 1;
    }
    assert(all.take(n as int) =~= all);
    out
}

} // verus!
