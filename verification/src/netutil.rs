//! The local networks, read from the addresses of the network interfaces.
//! The caller lists the interfaces; what is read from them is decided here.

use vstd::prelude::*;
use crate::ipv4::{Ipv4Net, is_link_local, link_local, netmask, network, trunc};

verus! {

/// An IPv4 address of an interface, with its netmask.
#[derive(Clone, Copy, Debug)]
pub struct V4Addr {
    pub ip: u32,
    pub netmask: u32,
}

/// An address of a network interface as the system lists it: whether it
/// is a loopback address, and the IPv4 address (none for IPv6).
#[derive(Clone, Copy, Debug)]
pub struct Interface {
    pub is_loopback: bool,
    pub v4: Option<V4Addr>,
}

/// The number of one bits of `x`.
pub open spec fn ones(x: nat) -> nat
    decreases x,
{
    if x == 0 {
        0
    } else {
        x % 2 + ones(x / 2)
    }
}

/// `2` to the power `k`.
pub open spec fn two_pow(k: nat) -> nat
    decreases k,
{
    if k == 0 {
        1
    } else {
        2 * two_pow((k - 1) as nat)
    }
}

/// A number below `2^k` has at most `k` one bits.
proof fn lemma_ones_le(x: nat, k: nat)
    requires
        x < two_pow(k),
    ensures
        ones(x) <= k,
    decreases k,
{
    if x > 0 {
        lemma_ones_le(x / 2, (k - 1) as nat);
    }
}

/// A 32-bit number has at most 32 one bits.
proof fn lemma_ones_u32(x: u32)
    ensures
        ones(x as nat) <= 32,
{
    reveal_with_fuel(two_pow, 33);
    assert(two_pow(32) == 0x1_0000_0000);
    lemma_ones_le(x as nat, 32);
}

/// The prefix length of a netmask: its number of one bits.
pub fn netmask_to_prefix(mask: u32) -> (r: u8)
    ensures
        r == ones(mask as nat),
        r <= 32,
{
    proof {
        lemma_ones_u32(mask);
    }
    let mut x: u32 = mask;
    let mut n: u8 = 0;
    while x != 0
        invariant
            n + ones(x as nat) == ones(mask as nat),
            ones(mask as nat) <= 32,
        decreases x,
    {
        n = n + (x % 2) as u8;
        x = x / 2;
    }
    n
}

/// An address is looked at when it is an IPv4 address that is neither a
/// loopback nor a link-local (169.254/16) address.
pub open spec fn usable(i: Interface) -> bool {
    &&& !i.is_loopback
    &&& i.v4 is Some
    &&& !is_link_local(i.v4->0.ip)
}

/// The network that an interface address is on, written with its network
/// address; a network wider than /24 is narrowed to the /24 around the
/// address.
pub open spec fn iface_subnet(a: V4Addr) -> Ipv4Net {
    let len = ones(a.netmask as nat);
    let p: u8 = if len < 24 {
        24
    } else {
        len as u8
    };
    Ipv4Net { addr: network(Ipv4Net { addr: a.ip, prefix_len: p }), prefix_len: p }
}

/// The networks of the usable addresses, each once, in the order in which
/// they are first seen.
pub open spec fn local_subnets_of(ifaces: Seq<Interface>) -> Seq<Ipv4Net>
    decreases ifaces.len(),
{
    if ifaces.len() == 0 {
        Seq::empty()
    } else {
        let acc = local_subnets_of(ifaces.drop_last());
        let i = ifaces.last();
        if usable(i) && !acc.contains(iface_subnet(i.v4->0)) {
            acc.push(iface_subnet(i.v4->0))
        } else {
            acc
        }
    }
}

/// The networks to scan are distinct, none wider than /24, and each is
/// written with its network address.
pub proof fn lemma_local_subnets(ifaces: Seq<Interface>)
    ensures
        local_subnets_of(ifaces).no_duplicates(),
        forall|k: int|
            0 <= k < local_subnets_of(ifaces).len() ==> {
                let n = #[trigger] local_subnets_of(ifaces)[k];
                &&& 24 <= n.prefix_len <= 32
                &&& n.addr == network(n)
            },
    decreases ifaces.len(),
{
    if ifaces.len() > 0 {
        lemma_local_subnets(ifaces.drop_last());
        let i = ifaces.last();
        if usable(i) {
            let a = i.v4->0;
            lemma_ones_u32(a.netmask);
            let n = iface_subnet(a);
            let m = netmask(n.prefix_len);
            let x = a.ip;
            assert((x & m) & m == x & m) by (bit_vector);
        }
    }
}

/// A network is to be scanned exactly when it is the network of some
/// usable interface address.
pub proof fn lemma_local_subnets_members(ifaces: Seq<Interface>)
    ensures
        forall|n: Ipv4Net|
            #[trigger] local_subnets_of(ifaces).contains(n) <==> exists|i: int|
                0 <= i < ifaces.len() && usable(ifaces[i]) && iface_subnet((#[trigger] ifaces[i]).v4->0)
                    == n,
    decreases ifaces.len(),
{
    if ifaces.len() > 0 {
        let prev = ifaces.drop_last();
        let acc = local_subnets_of(prev);
        let last = ifaces.last();
        lemma_local_subnets_members(prev);
        assert forall|n: Ipv4Net| #[trigger] local_subnets_of(ifaces).contains(n) <==> exists|i: int|
            0 <= i < ifaces.len() && usable(ifaces[i]) && iface_subnet((#[trigger] ifaces[i]).v4->0)
                == n by {
            let r = local_subnets_of(ifaces);
            if exists|i: int|
                0 <= i < ifaces.len() && usable(ifaces[i]) && iface_subnet(
                    (#[trigger] ifaces[i]).v4->0,
                ) == n {
                let i = choose|i: int|
                    0 <= i < ifaces.len() && usable(ifaces[i]) && iface_subnet(
                        (#[trigger] ifaces[i]).v4->0,
                    ) == n;
                if i < prev.len() {
                    assert(prev[i] == ifaces[i]);
                    assert(acc.contains(n));
                    let k = choose|k: int| 0 <= k < acc.len() && acc[k] == n;
                    if usable(last) && !acc.contains(iface_subnet(last.v4->0)) {
                        assert(r[k] == n);
                    }
                } else {
                    assert(last == ifaces[i]);
                    if !acc.contains(n) {
                        assert(r[acc.len() as int] == n);
                    }
                }
            }
            if r.contains(n) {
                let k = choose|k: int| 0 <= k < r.len() && r[k] == n;
                if k < acc.len() {
                    assert(acc[k] == n);
                    assert(acc.contains(n));
                    let i = choose|i: int|
                        0 <= i < prev.len() && usable(prev[i]) && iface_subnet(
                            (#[trigger] prev[i]).v4->0,
                        ) == n;
                    assert(ifaces[i] == prev[i]);
                } else {
                    assert(ifaces[ifaces.len() - 1] == last);
                }
            }
        }
    }
}

/// The network of an interface address, narrowed to its /24 when wider.
fn subnet_of(a: V4Addr) -> (r: Ipv4Net)
    ensures
        r == iface_subnet(a),
        r.wf(),
{
    let len = netmask_to_prefix(a.netmask);
    let net = trunc(Ipv4Net { addr: a.ip, prefix_len: len });
    if len < 24 {
        trunc(Ipv4Net { addr: a.ip, prefix_len: 24 })
    } else {
        net
    }
}

/// The networks to scan on this host: those of the IPv4 addresses of the
/// interfaces that are neither loopback nor link-local, each once, in the
/// order first seen, narrowed to the /24 around the address when wider.
pub fn local_subnets(ifaces: &[Interface]) -> (r: Vec<Ipv4Net>)
    ensures
        r@ == local_subnets_of(ifaces@),
        forall|k: int| 0 <= k < r@.len() ==> (#[trigger] r@[k]).wf(),
{
    let mut out: Vec<Ipv4Net> = Vec::new();
    let mut i: usize = 0;
    while i < ifaces.len()
        invariant
            i <= ifaces@.len(),
            out@ == local_subnets_of(ifaces@.take(i as int)),
            forall|k: int| 0 <= k < out@.len() ==> (#[trigger] out@[k]).wf(),
        decreases ifaces@.len() - i,
    {
        assert(ifaces@.take(i + 1).drop_last() =~= ifaces@.take(i as int));
        let iface = ifaces[i];
        if !iface.is_loopback {
            if let Some(a) = iface.v4 {
                if !link_local(a.ip) {
                    let net = subnet_of(a);
                    let mut seen = false;
                    let mut j: usize = 0;
                    while j < out.len()
                        invariant
                            j <= out@.len(),
                            seen == exists|m: int| 0 <= m < j && out@[m] == net,
                        decreases out@.len() - j,
                    {
                        if out[j] == net {
                            seen = true;
                        }
                        j += 1;
                    }
                    assert(seen == out@.contains(net));
                    if !seen {
                        out.push(net);
                    }
                }
            }
        }
        i += 1;
    }
    assert(ifaces@.take(i as int) =~= ifaces@);
    out
}

} // verus!
