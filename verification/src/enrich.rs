//! The VAPIX pass over the devices found: which host and port each probe of
//! `basicdeviceinfo.cgi` goes to, and what each answer adds to the device.
//! The caller makes the requests and hands the answers back, one probe
//! after another, as `probe_step` asks for them.

use vstd::prelude::*;
use crate::model::{Device, DeviceView, HintsView, device_views, fill};
use crate::probe::{AxisCgiResult, DeviceInfo, DeviceInfoView};

verus! {

broadcast use vstd::string::group_string_axioms;

/// The ports probed on a device: its open ports, or port 80 when none is
/// known.
pub open spec fn probe_ports(d: DeviceView) -> Seq<u16> {
    if d.open_ports.len() == 0 {
        seq![80]
    } else {
        d.open_ports
    }
}

/// The probes of the devices: for each device in order, one per port,
/// given as the position of the device and the port.
pub open spec fn jobs_of(ds: Seq<DeviceView>) -> Seq<(usize, u16)>
    decreases ds.len(),
{
    if ds.len() == 0 {
        Seq::empty()
    } else {
        jobs_of(ds.drop_last()) + probe_ports(ds.last()).map_values(
            |p: u16| ((ds.len() - 1) as usize, p),
        )
    }
}

/// The list of probes to make: for each device, one per open port, or one
/// on port 80 when no port is known.
pub fn probe_jobs(devices: &[Device]) -> (r: Vec<(usize, u16)>)
    ensures
        r@ == jobs_of(device_views(devices@)),
{
    let ghost ds = device_views(devices@);
    let mut jobs: Vec<(usize, u16)> = Vec::new();
    let mut i: usize = 0;
    assert(ds.take(0) =~= Seq::<DeviceView>::empty());
    while i < devices.len()
        invariant
            ds == device_views(devices@),
            i <= devices@.len(),
            jobs@ == jobs_of(ds.take(i as int)),
        decreases devices@.len() - i,
    {
        let d = &devices[i];
        assert(ds.take(i + 1).drop_last() =~= ds.take(i as int));
        assert(ds.take(i + 1).last() == d@);
        let ghost start = jobs@;
        let ghost ports = probe_ports(d@);
        if d.open_ports.len() == 0 {
            jobs.push((i, 80));
            assert(jobs@ =~= start + ports.map_values(|p: u16| (i, p)));
        } else {
            let mut k: usize = 0;
            while k < d.open_ports.len()
                invariant
                    ports == d.open_ports@,
                    k <= ports.len(),
                    jobs@ == start + ports.take(k as int).map_values(|p: u16| (i, p)),
                decreases ports.len() - k,
            {
                jobs.push((i, d.open_ports[k]));
                assert(ports.take(k + 1).map_values(|p: u16| (i, p)) =~= ports.take(
                    k as int,
                ).map_values(|p: u16| (i, p)).push((i, ports[k as int])));
                assert(jobs@ =~= start + ports.take(k + 1).map_values(|p: u16| (i, p)));
                k += 1;
            }
            assert(ports.take(k as int) =~= ports);
        }
        assert(jobs_of(ds.take(i + 1)) == start + ports.map_values(|p: u16| (i, p)));
        i += 1;
    }
    assert(ds.take(i as int) =~= ds);
    jobs
}

/// What the probe of a device asks for next.
#[derive(Clone, Copy, Debug, PartialEq, Eq, Structural)]
pub enum ProbeAction {
    /// POST `getAllUnrestrictedProperties` to `basicdeviceinfo.cgi`.
    AskDeviceInfo,
    /// GET `basicdeviceinfo.cgi`.
    AskAxisCgi,
    /// GET `/webapp/index.shtml` for its title.
    AskWebappTitle,
    /// Nothing more.
    Done,
}

/// What the caller hands back: the start of a probe, or an answer.
pub enum ProbeEvent {
    Start,
    DeviceInfo(DeviceInfo),
    AxisCgi(AxisCgiResult),
    WebappTitle(String),
}

/// `d` with the device information of an Axis answer: the CGI flag set,
/// and its empty name, product number, product type, serial number and
/// firmware filled from the answer.
pub open spec fn with_info(d: DeviceView, info: DeviceInfoView) -> DeviceView {
    DeviceView {
        hints: HintsView {
            axis_cgi: true,
            device_name: fill(d.hints.device_name, info.prod_full_name),
            prod_nbr: fill(d.hints.prod_nbr, info.prod_nbr),
            prod_type: fill(d.hints.prod_type, info.prod_type),
            serial_number: fill(d.hints.serial_number, info.serial_number),
            firmware: fill(d.hints.firmware, info.firmware),
            ..d.hints
        },
        ..d
    }
}

/// `d` with the CGI flag set when the GET answer shows an Axis device.
pub open spec fn with_axis_cgi(d: DeviceView, is_axis: bool) -> DeviceView {
    if is_axis {
        DeviceView { hints: HintsView { axis_cgi: true, ..d.hints }, ..d }
    } else {
        d
    }
}

/// `d` with its empty name filled from a page title.
pub open spec fn with_title(d: DeviceView, title: Seq<char>) -> DeviceView {
    DeviceView { hints: HintsView { device_name: fill(d.hints.device_name, title), ..d.hints }, ..d }
}

/// Fills an empty field from `src`.
fn fill_field(dst: &mut String, src: &String)
    ensures
        final(dst)@ == fill(old(dst)@, src@),
{
    if dst.as_str().is_empty() && !src.as_str().is_empty() {
        *dst = src.clone();
    }
}

/// The content of a `ProbeEvent`.
pub enum ProbeEventView {
    Start,
    DeviceInfo(DeviceInfoView),
    AxisCgi(AxisCgiResult),
    WebappTitle(Seq<char>),
}

impl View for ProbeEvent {
    type V = ProbeEventView;

    open spec fn view(&self) -> ProbeEventView {
        match self {
            ProbeEvent::Start => ProbeEventView::Start,
            ProbeEvent::DeviceInfo(info) => ProbeEventView::DeviceInfo(info@),
            ProbeEvent::AxisCgi(r) => ProbeEventView::AxisCgi(*r),
            ProbeEvent::WebappTitle(t) => ProbeEventView::WebappTitle(t@),
        }
    }
}

/// The device after an event: an Axis device information answer fills it
/// and sets the CGI flag, a GET answer of the CGI may set the flag, a page
/// title fills an empty name; nothing else changes it.
pub open spec fn apply_event(d: DeviceView, e: ProbeEventView) -> DeviceView {
    match e {
        ProbeEventView::Start => d,
        ProbeEventView::DeviceInfo(info) => if info.is_axis {
            with_info(d, info)
        } else {
            d
        },
        ProbeEventView::AxisCgi(r) => with_axis_cgi(d, r.is_axis),
        ProbeEventView::WebappTitle(t) => with_title(d, t),
    }
}

/// What the probe asks for after an event: the device information first;
/// after an answer that is not Axis, the GET of the CGI; after that, the
/// page title while the device has no name.
pub open spec fn next_action(d: DeviceView, e: ProbeEventView) -> ProbeAction {
    match e {
        ProbeEventView::Start => ProbeAction::AskDeviceInfo,
        ProbeEventView::DeviceInfo(info) => if info.is_axis {
            ProbeAction::Done
        } else {
            ProbeAction::AskAxisCgi
        },
        ProbeEventView::AxisCgi(_) => if d.hints.device_name.len() == 0 {
            ProbeAction::AskWebappTitle
        } else {
            ProbeAction::Done
        },
        ProbeEventView::WebappTitle(_) => ProbeAction::Done,
    }
}

/// The device after a sequence of events, in order (the events of all the
/// probes of a device, however they interleave).
pub open spec fn apply_all(d: DeviceView, es: Seq<ProbeEventView>) -> DeviceView
    decreases es.len(),
{
    if es.len() == 0 {
        d
    } else {
        apply_event(apply_all(d, es.drop_last()), es.last())
    }
}

/// The event shows an Axis device through the CGI.
pub open spec fn sets_flag(e: ProbeEventView) -> bool {
    match e {
        ProbeEventView::DeviceInfo(info) => info.is_axis,
        ProbeEventView::AxisCgi(r) => r.is_axis,
        _ => false,
    }
}

/// The hint fields that answers fill: 0 the name, 1 the product number, 2
/// the product type, 3 the serial number, 4 the firmware.
pub open spec fn hint_field(h: HintsView, k: int) -> Seq<char> {
    if k == 0 {
        h.device_name
    } else if k == 1 {
        h.prod_nbr
    } else if k == 2 {
        h.prod_type
    } else if k == 3 {
        h.serial_number
    } else {
        h.firmware
    }
}

/// What an event offers for hint field `k`: the fields of an Axis device
/// information answer, a page title for the name, nothing otherwise.
pub open spec fn offered(e: ProbeEventView, k: int) -> Seq<char> {
    match e {
        ProbeEventView::DeviceInfo(info) => if !info.is_axis {
            Seq::empty()
        } else if k == 0 {
            info.prod_full_name
        } else if k == 1 {
            info.prod_nbr
        } else if k == 2 {
            info.prod_type
        } else if k == 3 {
            info.serial_number
        } else {
            info.firmware
        },
        ProbeEventView::WebappTitle(t) => if k == 0 {
            t
        } else {
            Seq::empty()
        },
        _ => Seq::empty(),
    }
}

/// `init` filled in turn from the candidates.
pub open spec fn first_filled(init: Seq<char>, cands: Seq<Seq<char>>) -> Seq<char>
    decreases cands.len(),
{
    if cands.len() == 0 {
        init
    } else {
        fill(first_filled(init, cands.drop_last()), cands.last())
    }
}

/// Filling in turn keeps a non-empty start, and otherwise gives the first
/// non-empty candidate, or nothing when all are empty.
pub proof fn lemma_first_filled(init: Seq<char>, cands: Seq<Seq<char>>)
    ensures
        init.len() > 0 ==> first_filled(init, cands) == init,
        init.len() == 0 ==> {
            ||| (first_filled(init, cands).len() == 0 && forall|j: int|
                0 <= j < cands.len() ==> (#[trigger] cands[j]).len() == 0)
            ||| exists|j: int|
                0 <= j < cands.len() && cands[j].len() > 0 && first_filled(init, cands)
                    == cands[j] && forall|m: int| 0 <= m < j ==> (#[trigger] cands[m]).len() == 0
        },
    decreases cands.len(),
{
    if cands.len() > 0 {
        let prev = cands.drop_last();
        lemma_first_filled(init, prev);
        if init.len() == 0 {
            if first_filled(init, prev).len() == 0 {
                assert(forall|j: int| 0 <= j < prev.len() ==> (#[trigger] prev[j]).len() == 0);
                assert(forall|j: int| 0 <= j < cands.len() - 1 ==> cands[j] == prev[j]);
                if cands.last().len() > 0 {
                    let j = cands.len() - 1;
                    assert(cands[j].len() > 0 && first_filled(init, cands) == cands[j]);
                    assert(forall|m: int| 0 <= m < j ==> (#[trigger] cands[m]).len() == 0) by {
                        assert forall|m: int| 0 <= m < j implies (#[trigger] cands[m]).len() == 0 by {
                            assert(cands[m] == prev[m]);
                        }
                    }
                } else {
                    assert forall|j: int| 0 <= j < cands.len() implies (#[trigger] cands[j]).len()
                        == 0 by {
                        if j < cands.len() - 1 {
                            assert(cands[j] == prev[j]);
                        }
                    }
                }
            } else {
                let j = choose|j: int|
                    0 <= j < prev.len() && prev[j].len() > 0 && first_filled(init, prev) == prev[j]
                        && forall|m: int| 0 <= m < j ==> (#[trigger] prev[m]).len() == 0;
                assert(cands[j] == prev[j]);
                assert forall|m: int| 0 <= m < j implies (#[trigger] cands[m]).len() == 0 by {
                    assert(cands[m] == prev[m]);
                }
            }
        }
    }
}

/// One event fills each hint field from what it offers.
proof fn lemma_event_field(d: DeviceView, e: ProbeEventView, k: int)
    ensures
        hint_field(apply_event(d, e).hints, k) == fill(hint_field(d.hints, k), offered(e, k)),
{
}

/// Whatever the events of the probes of a device and however they
/// interleave: the address, URL, methods, ports, confidence and the other
/// hints stay; the CGI flag ends set exactly when it was set or some answer
/// showed an Axis device through the CGI; and each of the name, product
/// number, product type, serial number and firmware ends as it was when
/// not empty, and otherwise as the first non-empty value that the answers
/// offered for it, in the order they came (see `lemma_first_filled`).
pub proof fn lemma_probe_events(d: DeviceView, es: Seq<ProbeEventView>)
    ensures
        apply_all(d, es).ip == d.ip,
        apply_all(d, es).url == d.url,
        apply_all(d, es).methods == d.methods,
        apply_all(d, es).open_ports == d.open_ports,
        apply_all(d, es).confidence == d.confidence,
        apply_all(d, es).hints.server_header == d.hints.server_header,
        apply_all(d, es).hints.ssdp_server == d.hints.ssdp_server,
        apply_all(d, es).hints.mac == d.hints.mac,
        apply_all(d, es).hints.body_markers == d.hints.body_markers,
        apply_all(d, es).hints.axis_cgi == (d.hints.axis_cgi || exists|i: int|
            0 <= i < es.len() && sets_flag(#[trigger] es[i])),
        forall|k: int|
            0 <= k < 5 ==> #[trigger] hint_field(apply_all(d, es).hints, k) == first_filled(
                hint_field(d.hints, k),
                es.map_values(|e: ProbeEventView| offered(e, k)),
            ),
    decreases es.len(),
{
    if es.len() > 0 {
        let prev = es.drop_last();
        let e = es.last();
        lemma_probe_events(d, prev);
        let before = apply_all(d, prev);
        assert((exists|i: int| 0 <= i < es.len() && sets_flag(#[trigger] es[i])) == ((exists|
            i: int,
        | 0 <= i < prev.len() && sets_flag(#[trigger] prev[i])) || sets_flag(e))) by {
            if exists|i: int| 0 <= i < es.len() && sets_flag(#[trigger] es[i]) {
                let i = choose|i: int| 0 <= i < es.len() && sets_flag(#[trigger] es[i]);
                if i < es.len() - 1 {
                    assert(prev[i] == es[i]);
                }
            }
            if exists|i: int| 0 <= i < prev.len() && sets_flag(#[trigger] prev[i]) {
                let i = choose|i: int| 0 <= i < prev.len() && sets_flag(#[trigger] prev[i]);
                assert(es[i] == prev[i]);
            }
        }
        assert forall|k: int| 0 <= k < 5 implies #[trigger] hint_field(apply_all(d, es).hints, k)
            == first_filled(hint_field(d.hints, k), es.map_values(|e: ProbeEventView| offered(e, k))) by {
            lemma_event_field(before, e, k);
            let f = |e: ProbeEventView| offered(e, k);
            assert(es.map_values(f).drop_last() =~= prev.map_values(f));
            assert(es.map_values(f).last() == offered(e, k));
        }
    }
}

/// One step of the probe of a device on one port: a probe starts by asking
/// for the device information; an Axis answer there fills the device and
/// ends the probe, any other leads to the GET of the CGI, which may set the
/// CGI flag; the web page title is then asked for only while the device has
/// no name, and fills it.
pub fn probe_step(d: &mut Device, event: ProbeEvent) -> (a: ProbeAction)
    ensures
        final(d)@ == apply_event(old(d)@, event@),
        a == next_action(old(d)@, event@),
{
    match event {
        ProbeEvent::Start => ProbeAction::AskDeviceInfo,
        ProbeEvent::DeviceInfo(info) => {
            if info.is_axis {
                d.hints.axis_cgi = true;
                fill_field(&mut d.hints.device_name, &info.prod_full_name);
                fill_field(&mut d.hints.prod_nbr, &info.prod_nbr);
                fill_field(&mut d.hints.prod_type, &info.prod_type);
                fill_field(&mut d.hints.serial_number, &info.serial_number);
                fill_field(&mut d.hints.firmware, &info.firmware);
                ProbeAction::Done
            } else {
                ProbeAction::AskAxisCgi
            }
        },
        ProbeEvent::AxisCgi(r) => {
            if r.is_axis {
                d.hints.axis_cgi = true;
            }
            if d.hints.device_name.as_str().is_empty() {
                ProbeAction::AskWebappTitle
            } else {
                ProbeAction::Done
            }
        },
        ProbeEvent::WebappTitle(t) => {
            fill_field(&mut d.hints.device_name, &t);
            ProbeAction::Done
        },
    }
}

} // verus!
