//! Multicast discovery: what the three protocols send and how their answers
//! become devices.  Sending and receiving is left to the caller, which
//! follows the configuration and schedule given here and hands the
//! datagrams it received to the protocol modules.

pub mod mdns;
pub mod onvif;
pub mod ssdp;

use vstd::prelude::*;
use crate::ipv4::link_local;
use crate::netutil::{Interface, usable};

verus! {

/// A datagram received during discovery: the sender's IPv4 address and the
/// payload.
pub struct Datagram {
    pub src: u32,
    pub data: Vec<u8>,
}

/// A round of multicast discovery: the group to send to, the payloads sent
/// in each of `send_count` rounds `send_delay_ms` milliseconds apart, the
/// size of the receive buffer, and the tag of the log lines.
pub struct Config {
    pub group_ip: u32,
    pub group_port: u16,
    pub payloads: Vec<Vec<u8>>,
    pub send_count: usize,
    pub send_delay_ms: u64,
    pub recv_buf: usize,
    pub verbose: bool,
    pub tag: &'static str,
}

/// The bytes of each payload.
pub open spec fn payload_views(p: Seq<Vec<u8>>) -> Seq<Seq<u8>> {
    p.map_values(|v: Vec<u8>| v@)
}

/// The addresses to send from: those of the usable interface addresses,
/// each once, in the order first seen.
pub open spec fn multicast_ips_of(ifaces: Seq<Interface>) -> Seq<u32>
    decreases ifaces.len(),
{
    if ifaces.len() == 0 {
        Seq::empty()
    } else {
        let acc = multicast_ips_of(ifaces.drop_last());
        let i = ifaces.last();
        if usable(i) && !acc.contains(i.v4->0.ip) {
            acc.push(i.v4->0.ip)
        } else {
            acc
        }
    }
}

/// The IPv4 addresses of the interfaces suitable for multicast: neither
/// loopback nor link-local, each once.
pub fn multicast_iface_ips(ifaces: &[Interface]) -> (r: Vec<u32>)
    ensures
        r@ == multicast_ips_of(ifaces@),
{
    let mut out: Vec<u32> = Vec::new();
    let mut i: usize = 0;
    while i < ifaces.len()
        invariant
            i <= ifaces@.len(),
            out@ == multicast_ips_of(ifaces@.take(i as int)),
        decreases ifaces@.len() - i,
    {
        assert(ifaces@.take(i + 1).drop_last() =~= ifaces@.take(i as int));
        let iface = ifaces[i];
        if !iface.is_loopback {
            if let Some(a) = iface.v4 {
                if !link_local(a.ip) {
                    let mut seen = false;
                    let mut j: usize = 0;
                    while j < out.len()
                        invariant
                            j <= out@.len(),
                            seen == exists|m: int| 0 <= m < j && out@[m] == a.ip,
                        decreases out@.len() - j,
                    {
                        if out[j] == a.ip {
                            seen = true;
                        }
                        j += 1;
                    }
                    assert(seen == out@.contains(a.ip));
                    if !seen {
                        out.push(a.ip);
                    }
                }
            }
        }
        i += 1;
    }
    assert(ifaces@.take(i as int) =~= ifaces@);
    out
}

/// What the sending phase of a round does next.
#[derive(Clone, Copy, Debug, PartialEq, Eq, Structural)]
pub enum SendStep {
    /// Stop sending and read the answers until the deadline.
    Stop,
    /// Send every payload, then read the answers.
    Send,
    /// Send every payload, then wait the delay before the next round.
    SendThenWait,
}

/// The step of round `i` out of `send_count`: nothing more once the rounds
/// are done or the deadline has passed; the last round is not followed by
/// a wait.
pub open spec fn step_of(i: int, send_count: int, deadline_passed: bool) -> SendStep {
    if i >= send_count || deadline_passed {
        SendStep::Stop
    } else if i + 1 < send_count {
        SendStep::SendThenWait
    } else {
        SendStep::Send
    }
}

/// The step of round `i` out of `send_count`, given whether the deadline
/// has passed.
pub fn send_step(i: usize, send_count: usize, deadline_passed: bool) -> (r: SendStep)
    ensures
        r == step_of(i as int, send_count as int, deadline_passed),
{
    if i >= send_count || deadline_passed {
        SendStep::Stop
    } else if i + 1 < send_count {
        SendStep::SendThenWait
    } else {
        SendStep::Send
    }
}

/// The round at which a sending phase stops, given what each check of the
/// deadline found (`passed[i]` at round `i`), starting from round `i`.
pub open spec fn stop_round(send_count: int, passed: Seq<bool>, i: int) -> int
    decreases passed.len() - i,
{
    if i < 0 || i >= send_count || i >= passed.len() || passed[i] {
        i
    } else {
        stop_round(send_count, passed, i + 1)
    }
}

/// A sending phase that follows `send_step` from round 0 sends the payloads
/// in rounds 0 up to the stop round and in no other: at most `send_count`
/// rounds, none of them begun once the deadline had passed, each followed
/// by a wait except the last of the `send_count` rounds.
pub proof fn lemma_send_schedule(send_count: int, passed: Seq<bool>)
    ensures
        0 <= stop_round(send_count, passed, 0),
        stop_round(send_count, passed, 0) <= send_count || send_count < 0,
        forall|i: int|
            0 <= i < stop_round(send_count, passed, 0) ==> {
                &&& !passed[i]
                &&& #[trigger] step_of(i, send_count, passed[i]) != SendStep::Stop
                &&& (step_of(i, send_count, passed[i]) == SendStep::SendThenWait <==> i + 1
                    < send_count)
            },
        stop_round(send_count, passed, 0) < passed.len() ==> step_of(
            stop_round(send_count, passed, 0),
            send_count,
            passed[stop_round(send_count, passed, 0)],
        ) == SendStep::Stop,
{
    lemma_stop_round(send_count, passed, 0);
}

proof fn lemma_stop_round(send_count: int, passed: Seq<bool>, j: int)
    requires
        0 <= j,
    ensures
        j <= stop_round(send_count, passed, j),
        stop_round(send_count, passed, j) <= send_count || j > send_count,
        stop_round(send_count, passed, j) <= passed.len() || j > passed.len(),
        forall|i: int|
            j <= i < stop_round(send_count, passed, j) ==> !passed[i] && i < send_count && i
                < passed.len(),
        stop_round(send_count, passed, j) < passed.len() ==> (stop_round(send_count, passed, j)
            >= send_count || passed[stop_round(send_count, passed, j)]),
    decreases passed.len() - j,
{
    if !(j >= send_count || j >= passed.len() || passed[j]) {
        lemma_stop_round(send_count, passed, j + 1);
    }
}

} // verus!
