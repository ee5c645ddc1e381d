use vapx_scan::ipv4::Ipv4Net;
use vapx_scan::netutil::{local_subnets, netmask_to_prefix, Interface, V4Addr};

fn quad(a: u8, b: u8, c: u8, d: u8) -> u32 {
    u32::from_be_bytes([a, b, c, d])
}

fn iface(ip: u32, mask: u32) -> Interface {
    Interface { is_loopback: false, v4: Some(V4Addr { ip, netmask: mask }) }
}

#[test]
fn netmask_conversion() {
    assert_eq!(netmask_to_prefix(quad(255, 255, 255, 0)), 24);
    assert_eq!(netmask_to_prefix(quad(255, 255, 0, 0)), 16);
    assert_eq!(netmask_to_prefix(quad(255, 255, 255, 252)), 30);
    assert_eq!(netmask_to_prefix(quad(0, 0, 0, 0)), 0);
}

#[test]
fn local_subnets_does_not_panic() {
    let ifaces: Vec<Interface> = match if_addrs::get_if_addrs() {
        Ok(list) => list
            .iter()
            .map(|i| Interface {
                is_loopback: i.is_loopback(),
                v4: match &i.addr {
                    if_addrs::IfAddr::V4(a) => Some(V4Addr { ip: u32::from(a.ip), netmask: u32::from(a.netmask) }),
                    _ => None,
                },
            })
            .collect(),
        Err(_) => Vec::new(),
    };
    let _ = local_subnets(&ifaces);
}

// ---------------------------------------------------------------------------

#[test]
fn netmask_counts_every_one_bit() {
    assert_eq!(netmask_to_prefix(u32::MAX), 32);
    assert_eq!(netmask_to_prefix(0x0000_00ff), 8);
    assert_eq!(netmask_to_prefix(0x8000_0001), 2);
}

#[test]
fn subnets_narrowed_deduplicated_and_filtered() {
    let ifaces = vec![
        Interface { is_loopback: true, v4: Some(V4Addr { ip: quad(127, 0, 0, 1), netmask: quad(255, 0, 0, 0) }) },
        iface(quad(169, 254, 10, 1), quad(255, 255, 0, 0)),
        Interface { is_loopback: false, v4: None },
        iface(quad(10, 20, 30, 40), quad(255, 0, 0, 0)),
        iface(quad(192, 168, 1, 77), quad(255, 255, 255, 192)),
        iface(quad(10, 20, 30, 99), quad(255, 255, 0, 0)),
        iface(quad(172, 16, 5, 5), quad(255, 255, 255, 255)),
    ];
    let nets = local_subnets(&ifaces);
    assert_eq!(
        nets,
        vec![
            Ipv4Net { addr: quad(10, 20, 30, 0), prefix_len: 24 },
            Ipv4Net { addr: quad(192, 168, 1, 64), prefix_len: 26 },
            Ipv4Net { addr: quad(172, 16, 5, 5), prefix_len: 32 },
        ]
    );
}
