//! The kernel's ARP table (`/proc/net/arp`) read as a map from IPv4
//! address to hardware address.

use std::collections::HashMap;
use vstd::prelude::*;
use crate::ipv4::{ipv4_of_text, parse_ipv4};
use crate::text::{
    chars_eq, chars_of, line_ranges, lines, lowercase_of, split_whitespace, to_lowercase, words,
};

verus! {

broadcast use {vstd::string::group_string_axioms, vstd::std_specs::hash::group_hash_axioms};

/// Default location of the ARP table on Linux.
pub const DEFAULT_PATH: &'static str = "/proc/net/arp";

/// Maps IPv4 addresses to hardware addresses (colon-separated, lower case).
/// ARP resolves IPv4 neighbours only, so the table file lists IPv4
/// addresses; a line whose first field is not one is skipped, as devices
/// are known by IPv4 address.
pub type Table = HashMap<u32, String>;

/// The hardware address of an incomplete entry.
pub open spec fn zero_mac() -> Seq<char> {
    "00:00:00:00:00:00"@
}

/// The entry that one line of the table gives: its first field read as an
/// address, its fourth field in lower case; none for a line with fewer than
/// four fields, an unreadable address or an all-zero hardware address.
pub open spec fn arp_entry(line: Seq<char>) -> Option<(u32, Seq<char>)> {
    let f = words(line);
    if f.len() < 4 {
        None
    } else {
        match ipv4_of_text(f[0]) {
            None => None,
            Some(ip) => {
                let mac = lowercase_of(f[3]);
                if mac == zero_mac() {
                    None
                } else {
                    Some((ip, mac))
                }
            },
        }
    }
}

/// The entries of the given lines, a later line replacing an earlier one
/// for the same address.
pub open spec fn arp_entries(ls: Seq<Seq<char>>) -> Map<u32, Seq<char>>
    decreases ls.len(),
{
    if ls.len() == 0 {
        Map::empty()
    } else {
        let m = arp_entries(ls.drop_last());
        match arp_entry(ls.last()) {
            Some((ip, mac)) => m.insert(ip, mac),
            None => m,
        }
    }
}

/// The table written in `content`: the entries of all lines after the
/// header line.
pub open spec fn arp_table(content: Seq<char>) -> Map<u32, Seq<char>> {
    let ls = lines(content);
    if ls.len() == 0 {
        Map::empty()
    } else {
        arp_entries(ls.skip(1))
    }
}

/// Line `l` names address `ip` with a complete hardware address: it has at
/// least four fields, the first is `ip` and the fourth, in lower case, is
/// not all zeros.
pub open spec fn line_gives(l: Seq<char>, ip: u32) -> bool {
    &&& words(l).len() >= 4
    &&& ipv4_of_text(words(l)[0]) == Some(ip)
    &&& lowercase_of(words(l)[3]) != "00:00:00:00:00:00"@
}

/// The entries of the lines hold an address exactly when some line names
/// it with a complete hardware address, and then the hardware address of
/// the last such line.
proof fn lemma_arp_entries(ls: Seq<Seq<char>>)
    ensures
        forall|ip: u32|
            arp_entries(ls).contains_key(ip) <==> exists|j: int|
                0 <= j < ls.len() && #[trigger] line_gives(ls[j], ip),
        forall|j: int, ip: u32|
            0 <= j < ls.len() && #[trigger] line_gives(ls[j], ip) && (forall|m: int|
                j < m < ls.len() ==> !line_gives(#[trigger] ls[m], ip)) ==> arp_entries(ls)[ip]
                == lowercase_of(words(ls[j])[3]),
    decreases ls.len(),
{
    if ls.len() > 0 {
        let prev = ls.drop_last();
        let last = ls.last();
        lemma_arp_entries(prev);
        assert forall|j: int| 0 <= j < prev.len() implies #[trigger] prev[j] == ls[j] by {}
        assert(ls[ls.len() - 1] == last);
        assert forall|ip: u32| line_gives(last, ip) <==> arp_entry(last) == Some(
            (ip, lowercase_of(words(last)[3])),
        ) by {}
        assert forall|ip: u32|
            arp_entries(ls).contains_key(ip) <==> exists|j: int|
                0 <= j < ls.len() && #[trigger] line_gives(ls[j], ip) by {
            if exists|j: int| 0 <= j < ls.len() && #[trigger] line_gives(ls[j], ip) {
                let j = choose|j: int| 0 <= j < ls.len() && #[trigger] line_gives(ls[j], ip);
                if j < prev.len() {
                    assert(line_gives(prev[j], ip));
                }
            }
            if exists|j: int| 0 <= j < prev.len() && #[trigger] line_gives(prev[j], ip) {
                let j = choose|j: int| 0 <= j < prev.len() && #[trigger] line_gives(prev[j], ip);
                assert(line_gives(ls[j], ip));
            }
            let m = arp_entries(prev);
            if let Some((ip2, mac)) = arp_entry(last) {
                assert(arp_entries(ls) == m.insert(ip2, mac));
                if ip2 == ip {
                    assert(line_gives(last, ip));
                    assert(line_gives(ls[ls.len() - 1], ip));
                } else {
                    assert(!line_gives(last, ip));
                }
            } else {
                assert(arp_entries(ls) == m);
                assert(!line_gives(last, ip));
            }
        }
        assert forall|j: int, ip: u32|
            0 <= j < ls.len() && #[trigger] line_gives(ls[j], ip) && (forall|m: int|
                j < m < ls.len() ==> !line_gives(#[trigger] ls[m], ip)) implies arp_entries(ls)[ip]
            == lowercase_of(words(ls[j])[3]) by {
            if j < prev.len() {
                assert(!line_gives(ls[ls.len() - 1], ip));
                assert(line_gives(prev[j], ip));
                assert forall|m: int| j < m < prev.len() implies !line_gives(#[trigger] prev[m], ip) by {
                    assert(!line_gives(ls[m], ip));
                }
            }
        }
    }
}

/// Reading the ARP table: every line after the header that names an
/// IPv4 address with a complete hardware address gives an entry, whatever
/// lines come before it (incomplete or unreadable ones included); its
/// hardware address, in lower case, stays unless a later line names the
/// same address, and then the last such line wins. No other address is in
/// the table.
pub proof fn lemma_arp_table(content: Seq<char>)
    ensures
        forall|ip: u32|
            arp_table(content).contains_key(ip) ==> exists|j: int|
                1 <= j < lines(content).len() && #[trigger] line_gives(lines(content)[j], ip),
        forall|j: int, ip: u32|
            1 <= j < lines(content).len() && #[trigger] line_gives(lines(content)[j], ip) && (forall|m: int|
                j < m < lines(content).len() ==> !line_gives(#[trigger] lines(content)[m], ip))
                ==> arp_table(content).contains_key(ip) && arp_table(content)[ip] == lowercase_of(
                words(lines(content)[j])[3],
            ),
{
    let ls = lines(content);
    if ls.len() > 0 {
        let rest = ls.skip(1);
        lemma_arp_entries(rest);
        assert forall|ip: u32| arp_table(content).contains_key(ip) implies exists|j: int|
            1 <= j < ls.len() && #[trigger] line_gives(ls[j], ip) by {
            let j = choose|j: int| 0 <= j < rest.len() && #[trigger] line_gives(rest[j], ip);
            assert(rest[j] == ls[j + 1]);
        }
        assert forall|j: int, ip: u32|
            1 <= j < ls.len() && #[trigger] line_gives(ls[j], ip) && (forall|m: int|
                j < m < ls.len() ==> !line_gives(#[trigger] ls[m], ip)) implies arp_table(
            content,
        ).contains_key(ip) && arp_table(content)[ip] == lowercase_of(words(ls[j])[3]) by {
            assert(rest[j - 1] == ls[j]);
            assert(line_gives(rest[j - 1], ip));
            assert forall|m: int| j - 1 < m < rest.len() implies !line_gives(#[trigger] rest[m], ip) by {
                assert(rest[m] == ls[m + 1]);
                assert(!line_gives(ls[m + 1], ip));
            }
        }
    }
}

/// The map of hardware addresses that a table holds.
pub open spec fn table_view(t: Map<u32, String>) -> Map<u32, Seq<char>> {
    t.map_values(|s: String| s@)
}

/// Parses the textual contents of `/proc/net/arp`:
///
/// ```text
/// IP address       HW type     Flags       HW address            Mask     Device
/// 192.168.1.1      0x1         0x2         aa:bb:cc:dd:ee:ff     *        eth0
/// ```
pub fn parse(content: &str) -> (t: Table)
    ensures
        table_view(t@) == arp_table(content@),
{
    let cs = chars_of(content);
    let ranges = line_ranges(cs.as_slice());
    let ghost ls = lines(content@);
    let zero = chars_of("00:00:00:00:00:00");
    let mut table: Table = HashMap::new();
    if ranges.len() == 0 {
        assert(table_view(table@) =~= Map::empty());
        return table;
    }
    let mut i: usize = 1;
    assert(ls.skip(1).take(0) =~= Seq::<Seq<char>>::empty());
    assert(table_view(table@) =~= Map::empty());
    while i < ranges.len()
        invariant
            1 <= i <= ranges@.len(),
            ranges@.len() == ls.len(),
            ls == lines(content@),
            cs@ == content@,
            zero@ == zero_mac(),
            forall|k: int|
                0 <= k < ranges@.len() ==> {
                    &&& (#[trigger] ranges@[k]).0 <= ranges@[k].1 <= cs@.len()
                    &&& cs@.subrange(ranges@[k].0 as int, ranges@[k].1 as int) == ls[k]
                },
            table_view(table@) == arp_entries(ls.skip(1).take(i - 1)),
        decreases ranges@.len() - i,
    {
        let (a, b) = ranges[i];
        let line = &cs[a..b];
        assert(line@ == ls[i as int]);
        let ghost prev = ls.skip(1).take(i - 1);
        let ghost next = ls.skip(1).take(i as int);
        assert(next.drop_last() =~= prev);
        assert(next.last() == ls[i as int]);
        let fields = split_whitespace(line);
        if fields.len() >= 4 {
            assert(words(line@)[0] == fields@[0]@);
            let f0 = chars_of(fields[0].as_str());
            match parse_ipv4(f0.as_slice()) {
                Some(ip) => {
                    assert(words(line@)[3] == fields@[3]@);
                    let mac = to_lowercase(fields[3].as_str());
                    let mc = chars_of(mac.as_str());
                    if !chars_eq(mc.as_slice(), zero.as_slice()) {
                        let ghost old_t = table@;
                        table.insert(ip, mac);
                        assert(table_view(table@) =~= table_view(old_t).insert(
                            ip,
                            lowercase_of(words(line@)[3]),
                        ));
                    }
                },
                None => {},
            }
        }
        i += 1;
    }
    assert(ls.skip(1).take(i - 1) =~= ls.skip(1));
    table
}

} // verus!
