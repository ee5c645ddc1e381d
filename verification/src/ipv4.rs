//! IPv4 addresses as `u32` (most significant octet first): their dotted
//! decimal text, networks given by an address and a prefix length, and the
//! hosts of a network.

use vstd::prelude::*;
use crate::text::{
    dec_digits, digit_char, find, find_from, lemma_find_from, push_decimal, split_on, split_ranges,
    string_from_chars,
};

verus! {

broadcast use vstd::string::group_string_axioms;

// ---------------------------------------------------------------------------
// Dotted decimal text
// ---------------------------------------------------------------------------

/// An ASCII decimal digit.
pub open spec fn is_digit(c: char) -> bool {
    48 <= c as u32 <= 57
}

/// The value of a decimal digit.
pub open spec fn digit_val(c: char) -> nat {
    (c as u32 - 48) as nat
}

/// The value of a string of decimal digits.
pub open spec fn digits_value(t: Seq<char>) -> nat
    decreases t.len(),
{
    if t.len() == 0 {
        0
    } else {
        digits_value(t.drop_last()) * 10 + digit_val(t.last())
    }
}

/// One octet of a dotted-decimal address, as std's `Ipv4Addr` parser reads
/// it: one to three digits, no leading zero, value at most 255.
pub open spec fn octet_value(t: Seq<char>) -> Option<u8> {
    if 1 <= t.len() <= 3 && (forall|i: int| 0 <= i < t.len() ==> is_digit(#[trigger] t[i])) && !(
    t.len() > 1 && t[0] == '0') && digits_value(t) <= 255 {
        Some(digits_value(t) as u8)
    } else {
        None
    }
}

/// The address with the given octets.
pub open spec fn ipv4_from_octets(a: u8, b: u8, c: u8, d: u8) -> u32 {
    (a * 16777216 + b * 65536 + c * 256 + d) as u32
}

/// Octet `k` (0 is the most significant) of `ip`.
pub open spec fn octet(ip: u32, k: int) -> u8 {
    if k == 0 {
        (ip / 16777216) as u8
    } else if k == 1 {
        ((ip / 65536) % 256) as u8
    } else if k == 2 {
        ((ip / 256) % 256) as u8
    } else {
        (ip % 256) as u8
    }
}

/// The address written in `s`, as `str::parse::<Ipv4Addr>` of std reads
/// it: four octets separated by dots.
pub open spec fn ipv4_of_text(s: Seq<char>) -> Option<u32> {
    let parts = split_on(s, seq!['.']);
    if parts.len() == 4 && octet_value(parts[0]) is Some && octet_value(parts[1]) is Some
        && octet_value(parts[2]) is Some && octet_value(parts[3]) is Some {
        Some(
            ipv4_from_octets(
                octet_value(parts[0])->0,
                octet_value(parts[1])->0,
                octet_value(parts[2])->0,
                octet_value(parts[3])->0,
            ),
        )
    } else {
        None
    }
}

/// The dotted decimal text of `ip` (what `Display` for `Ipv4Addr` writes).
pub open spec fn ipv4_text(ip: u32) -> Seq<char> {
    dec_digits(octet(ip, 0) as nat) + seq!['.'] + dec_digits(octet(ip, 1) as nat) + seq!['.']
        + dec_digits(octet(ip, 2) as nat) + seq!['.'] + dec_digits(octet(ip, 3) as nat)
}

/// The value of the digits of `t`, if `t` is an octet.
pub fn octet_of(t: &[char]) -> (r: Option<u8>)
    ensures
        r == octet_value(t@),
{
    if t.len() < 1 || t.len() > 3 {
        return None;
    }
    if t.len() > 1 && t[0] == '0' {
        return None;
    }
    let mut v: u32 = 0;
    let mut i: usize = 0;
    assert(t@.take(0) =~= Seq::<char>::empty());
    while i < t.len()
        invariant
            1 <= t@.len() <= 3,
            i <= t@.len(),
            forall|k: int| 0 <= k < i ==> is_digit(#[trigger] t@[k]),
            v == digits_value(t@.take(i as int)),
            v < 1000,
            i < 3 ==> v < 100,
            i < 2 ==> v < 10,
            i == 0 ==> v == 0,
        decreases t@.len() - i,
    {
        let c = t[i];
        let u = c as u32;
        if u < 48 || u > 57 {
            return None;
        }
        assert(t@.take(i + 1).drop_last() =~= t@.take(i as int));
        v = v * 10 + (u - 48);
        i += 1;
    }
    assert(t@.take(i as int) =~= t@);
    if v > 255 {
        return None;
    }
    Some(v as u8)
}

/// The address written in `s`, if `s` is a dotted-decimal IPv4 address.
pub fn parse_ipv4(s: &[char]) -> (r: Option<u32>)
    ensures
        r == ipv4_of_text(s@),
{
    let dot: Vec<char> = vec!['.'];
    assert(dot@ =~= seq!['.']);
    let parts = split_ranges(s, dot.as_slice());
    if parts.len() != 4 {
        return None;
    }
    let o0 = octet_of(&s[parts[0].0..parts[0].1]);
    let o1 = octet_of(&s[parts[1].0..parts[1].1]);
    let o2 = octet_of(&s[parts[2].0..parts[2].1]);
    let o3 = octet_of(&s[parts[3].0..parts[3].1]);
    match (o0, o1, o2, o3) {
        (Some(a), Some(b), Some(c), Some(d)) => {
            let v: u32 = (a as u32) * 16777216 + (b as u32) * 65536 + (c as u32) * 256 + (
            d as u32);
            Some(v)
        },
        _ => None,
    }
}

/// The dotted decimal text of `ip`.
pub fn ipv4_chars(ip: u32) -> (r: Vec<char>)
    ensures
        r@ == ipv4_text(ip),
{
    let mut out: Vec<char> = Vec::new();
    push_decimal((ip / 16777216) as u64, &mut out);
    out.push('.');
    push_decimal(((ip / 65536) % 256) as u64, &mut out);
    out.push('.');
    push_decimal(((ip / 256) % 256) as u64, &mut out);
    out.push('.');
    push_decimal((ip % 256) as u64, &mut out);
    assert(out@ =~= ipv4_text(ip));
    out
}

/// The dotted decimal text of `ip`, as a string.
pub fn ipv4_to_string(ip: u32) -> (r: String)
    ensures
        r@ == ipv4_text(ip),
{
    let cs = ipv4_chars(ip);
    string_from_chars(cs.as_slice())
}


// ---------------------------------------------------------------------------
// Reading back what was written
// ---------------------------------------------------------------------------

/// What is known of a digit character.
proof fn lemma_digit_char(d: int)
    requires
        0 <= d < 10,
    ensures
        digit_char(d) as u32 == 48 + d,
        is_digit(digit_char(d)),
        digit_val(digit_char(d)) == d,
        digit_char(d) != '.',
        d != 0 ==> digit_char(d) != '0',
{
}

/// The decimal text of a number below 256 is an octet with that value and
/// holds no dot.
proof fn lemma_dec_octet(n: nat)
    requires
        n <= 255,
    ensures
        octet_value(dec_digits(n)) == Some(n as u8),
        forall|i: int| 0 <= i < dec_digits(n).len() ==> #[trigger] dec_digits(n)[i] != '.',
{
    let t = dec_digits(n);
    let c = digit_char((n % 10) as int);
    let b = digit_char(((n / 10) % 10) as int);
    let a = digit_char((n / 100) as int);
    lemma_digit_char((n % 10) as int);
    lemma_digit_char(((n / 10) % 10) as int);
    lemma_digit_char((n / 100) as int);
    lemma_digits_value_1(a);
    lemma_digits_value_1(b);
    lemma_digits_value_1(c);
    if n < 10 {
        assert(t =~= seq![c]);
    } else if n < 100 {
        assert(dec_digits(n / 10) =~= seq![b]);
        assert(t =~= seq![b, c]);
        lemma_digits_value_2(b, c);
    } else {
        assert(dec_digits(n / 100) =~= seq![a]);
        assert(dec_digits(n / 10) =~= seq![a, b]);
        assert(t =~= seq![a, b, c]);
        lemma_digits_value_2(a, b);
        assert(seq![a, b, c].drop_last() =~= seq![a, b]);
        assert(seq![a, b, c].last() == c);
    }
}

proof fn lemma_digits_value_1(a: char)
    ensures
        digits_value(seq![a]) == digit_val(a),
{
    assert(seq![a].drop_last() =~= Seq::<char>::empty());
    assert(seq![a].last() == a);
    assert(digits_value(Seq::<char>::empty()) == 0);
}

proof fn lemma_digits_value_2(a: char, b: char)
    ensures
        digits_value(seq![a, b]) == digit_val(a) * 10 + digit_val(b),
{
    assert(seq![a, b].drop_last() =~= seq![a]);
    assert(seq![a, b].last() == b);
    lemma_digits_value_1(a);
}

/// Splitting at dots: a piece without dots, a dot, and the rest.
proof fn lemma_split_dot(x: Seq<char>, rest: Seq<char>)
    requires
        forall|i: int| 0 <= i < x.len() ==> #[trigger] x[i] != '.',
    ensures
        split_on(x + seq!['.'] + rest, seq!['.']) == seq![x] + split_on(rest, seq!['.']),
{
    let s = x + seq!['.'] + rest;
    let sep = seq!['.'];
    lemma_find_from(s, sep, 0);
    assert(s.subrange(x.len() as int, x.len() + 1int) =~= sep);
    match find(s, sep) {
        Some(k) => {
            if k < x.len() {
                assert(s.subrange(k, k + 1)[0] == x[k]);
            }
            assert(k == x.len());
        },
        None => {},
    }
    assert(s.take(x.len() as int) =~= x);
    assert(s.skip(x.len() + 1int) =~= rest);
}

/// A piece without dots is not split.
proof fn lemma_split_no_dot(x: Seq<char>)
    requires
        forall|i: int| 0 <= i < x.len() ==> #[trigger] x[i] != '.',
    ensures
        split_on(x, seq!['.']) == seq![x],
{
    let sep = seq!['.'];
    lemma_find_from(x, sep, 0);
    match find(x, sep) {
        Some(k) => {
            assert(x.subrange(k, k + 1)[0] == x[k]);
        },
        None => {},
    }
}

/// Reading back the dotted decimal text of an address gives the address:
/// what `Display` writes for an `Ipv4Addr`, its `FromStr` reads back.
pub proof fn lemma_ipv4_text_roundtrip(ip: u32)
    ensures
        ipv4_of_text(ipv4_text(ip)) == Some(ip),
{
    let d0 = dec_digits(octet(ip, 0) as nat);
    let d1 = dec_digits(octet(ip, 1) as nat);
    let d2 = dec_digits(octet(ip, 2) as nat);
    let d3 = dec_digits(octet(ip, 3) as nat);
    lemma_dec_octet(octet(ip, 0) as nat);
    lemma_dec_octet(octet(ip, 1) as nat);
    lemma_dec_octet(octet(ip, 2) as nat);
    lemma_dec_octet(octet(ip, 3) as nat);
    let r2 = d2 + seq!['.'] + d3;
    let r1 = d1 + seq!['.'] + r2;
    assert(ipv4_text(ip) =~= d0 + seq!['.'] + r1);
    lemma_split_dot(d0, r1);
    lemma_split_dot(d1, r2);
    lemma_split_dot(d2, d3);
    lemma_split_no_dot(d3);
    let parts = split_on(ipv4_text(ip), seq!['.']);
    assert(parts =~= seq![d0, d1, d2, d3]);
    let v = ip as int;
    assert(v == (v / 16777216) * 16777216 + ((v / 65536) % 256) * 65536 + ((v / 256) % 256) * 256
        + v % 256) by (nonlinear_arith)
        requires
            0 <= v < 4294967296,
    ;
}


// ---------------------------------------------------------------------------
// Networks
// ---------------------------------------------------------------------------

/// An IPv4 network: an address and a prefix length, which is at most 32
/// (`wf`).  The address need not be the network address.
#[derive(Clone, Copy, Debug, PartialEq, Eq, Structural)]
pub struct Ipv4Net {
    pub addr: u32,
    pub prefix_len: u8,
}

impl Ipv4Net {
    /// The prefix length is at most 32.
    pub open spec fn wf(self) -> bool {
        self.prefix_len <= 32
    }
}

/// The netmask of a prefix length: `len` leading one bits.
pub open spec fn netmask(len: u8) -> u32 {
    if len == 0 {
        0
    } else {
        0xffff_ffffu32 << ((32 - len) as u32)
    }
}

/// The network address of `n`: its address with the host bits cleared.
pub open spec fn network(n: Ipv4Net) -> u32 {
    n.addr & netmask(n.prefix_len)
}

/// The broadcast address of `n`: its address with the host bits set.
pub open spec fn broadcast(n: Ipv4Net) -> u32 {
    n.addr | !netmask(n.prefix_len)
}

/// The first host of `n`: the address after the network address, except
/// for prefixes of 31 and 32, which have no network address.
pub open spec fn hosts_first(n: Ipv4Net) -> u32 {
    if n.prefix_len < 31 {
        (network(n) + 1) as u32
    } else {
        network(n)
    }
}

/// The last host of `n`: the address before the broadcast address, except
/// for prefixes of 31 and 32, which have no broadcast address.
pub open spec fn hosts_last(n: Ipv4Net) -> u32 {
    if n.prefix_len < 31 {
        (broadcast(n) - 1) as u32
    } else {
        broadcast(n)
    }
}

/// The hosts of `n`, in increasing order.
pub open spec fn hosts(n: Ipv4Net) -> Seq<u32> {
    Seq::new(
        (hosts_last(n) - hosts_first(n) + 1) as nat,
        |i: int| (hosts_first(n) + i) as u32,
    )
}

/// The host bounds are ordered, and leave room for the network and
/// broadcast addresses below /31.
pub proof fn lemma_host_bounds(n: Ipv4Net)
    requires
        n.wf(),
    ensures
        network(n) <= broadcast(n),
        n.prefix_len < 31 ==> network(n) + 2 < broadcast(n),
        hosts_first(n) <= hosts_last(n),
{
    let a = n.addr;
    let len = n.prefix_len;
    if len == 0 {
        assert(a & 0u32 == 0u32 && a | !0u32 == 0xffff_ffffu32) by (bit_vector);
    } else {
        let sh = (32 - len) as u32;
        assert(sh <= 31 ==> (a & (0xffff_ffffu32 << sh)) <= (a | !(0xffff_ffffu32 << sh)))
            by (bit_vector);
        assert(2 <= sh <= 31 ==> (a & (0xffff_ffffu32 << sh)) + 2 < (a | !(0xffff_ffffu32 << sh)))
            by (bit_vector);
    }
}

/// The netmask of a prefix length.
pub fn netmask_of(len: u8) -> (r: u32)
    requires
        len <= 32,
    ensures
        r == netmask(len),
{
    if len == 0 {
        0
    } else {
        0xffff_ffffu32 << ((32 - len) as u32)
    }
}

/// The network of `n`, written with its network address (ipnet's
/// `Ipv4Net::trunc`).
pub fn trunc(n: Ipv4Net) -> (r: Ipv4Net)
    requires
        n.wf(),
    ensures
        r.wf(),
        r.addr == network(n),
        r.prefix_len == n.prefix_len,
{
    Ipv4Net { addr: n.addr & netmask_of(n.prefix_len), prefix_len: n.prefix_len }
}

/// Addresses in 169.254.0.0/16 (`Ipv4Addr::is_link_local`).
pub open spec fn is_link_local(ip: u32) -> bool {
    ip / 65536 == 169 * 256 + 254
}

/// Whether `ip` is a link-local address.
pub fn link_local(ip: u32) -> (r: bool)
    ensures
        r == is_link_local(ip),
{
    ip / 65536 == 169 * 256 + 254
}

/// A number as ipnet's parser reads it: one to `max` ASCII digits (leading
/// zeros allowed) whose value is below `upto`.
pub open spec fn ipnet_number(t: Seq<char>, max: nat, upto: nat) -> Option<nat> {
    if 1 <= t.len() <= max && (forall|i: int| 0 <= i < t.len() ==> is_digit(#[trigger] t[i]))
        && digits_value(t) < upto {
        Some(digits_value(t))
    } else {
        None
    }
}

/// The network that ipnet's `FromStr` for `Ipv4Net` reads from `s`: four
/// dot-separated numbers below 256 of one to three digits, a slash, and a
/// prefix length below 33 of one or two digits, and nothing else; the
/// address is kept as written.
pub open spec fn ipnet_text(s: Seq<char>) -> Option<(u32, u8)> {
    let halves = split_on(s, seq!['/']);
    if halves.len() != 2 {
        None
    } else {
        let parts = split_on(halves[0], seq!['.']);
        if parts.len() == 4 && ipnet_number(parts[0], 3, 256) is Some && ipnet_number(
            parts[1],
            3,
            256,
        ) is Some && ipnet_number(parts[2], 3, 256) is Some && ipnet_number(parts[3], 3, 256) is Some
            && ipnet_number(halves[1], 2, 33) is Some {
            Some(
                (
                    ipv4_from_octets(
                        ipnet_number(parts[0], 3, 256)->0 as u8,
                        ipnet_number(parts[1], 3, 256)->0 as u8,
                        ipnet_number(parts[2], 3, 256)->0 as u8,
                        ipnet_number(parts[3], 3, 256)->0 as u8,
                    ),
                    ipnet_number(halves[1], 2, 33)->0 as u8,
                ),
            )
        } else {
            None
        }
    }
}

/// Calls `str::parse::<ipnet::Ipv4Net>`.  ipnet's parser reads the text
/// byte by byte as `ipnet_text` says (greedy runs of digits, each group
/// refused when it has too many digits or reaches the bound) and builds the
/// network with `Ipv4Net::new`, which keeps the address as written.  The
/// text of the error is ipnet's `Display` of its `AddrParseError` and is
/// not stated.
#[verifier::external_body]
fn ipnet_from_str(s: &str) -> (r: Result<Ipv4Net, String>)
    ensures
        r matches Ok(n) ==> ipnet_text(s@) == Some((n.addr, n.prefix_len)),
        r is Err <==> ipnet_text(s@) is None,
{
    match s.parse::<ipnet::Ipv4Net>() {
        Ok(n) => Ok(Ipv4Net { addr: u32::from(n.addr()), prefix_len: n.prefix_len() }),
        Err(e) => Err(e.to_string()),
    }
}

/// Reads a network written as `a.b.c.d/len` with ipnet; on refusal the
/// error holds ipnet's message.
pub fn parse_subnet(s: &str) -> (r: Result<Ipv4Net, String>)
    ensures
        r matches Ok(n) ==> n.wf() && ipnet_text(s@) == Some((n.addr, n.prefix_len)),
        r is Err <==> ipnet_text(s@) is None,
{
    ipnet_from_str(s)
}

} // verus!
