//! Source addresses of knock packets and their textual form.
use vstd::laws_eq::*;
use vstd::prelude::*;

verus! {

/// An IPv4 or IPv6 address, held as its big-endian integer value.
#[derive(Clone, Copy, Debug)]
pub enum IpAddress {
    V4(u32),
    V6(u128),
}

impl PartialEq for IpAddress {
    fn eq(&self, other: &IpAddress) -> (r: bool) {
        match (self, other) {
            (IpAddress::V4(a), IpAddress::V4(b)) => *a == *b,
            (IpAddress::V6(a), IpAddress::V6(b)) => *a == *b,
            _ => false,
        }
    }
}

impl Eq for IpAddress {

}

impl vstd::std_specs::cmp::PartialEqSpecImpl for IpAddress {
    open spec fn obeys_eq_spec() -> bool {
        true
    }

    open spec fn eq_spec(&self, other: &IpAddress) -> bool {
        *self == *other
    }
}

/// Address comparison is equality of the addresses.
pub proof fn lemma_ip_eq_is_equality()
    ensures
        obeys_concrete_eq::<IpAddress>(),
{
    reveal(obeys_concrete_eq);
}

impl IpAddress {
    /// The IPv4 address `a.b.c.d`.
    pub fn v4(a: u8, b: u8, c: u8, d: u8) -> (r: IpAddress)
        ensures
            r == IpAddress::V4((a * 16777216 + b * 65536 + c * 256 + d) as u32),
    {
        IpAddress::V4((a as u32) * 16777216 + (b as u32) * 65536 + (c as u32) * 256 + (d as u32))
    }
}

} // verus!

verus! {

use crate::text::{dec_text, hex_text, push_char, push_decimal, push_hex};

/// The four octets of an IPv4 address, most significant first.
pub open spec fn ipv4_octets(x: u32) -> Seq<int> {
    seq![
        ((x / 16777216) % 256) as int,
        ((x / 65536) % 256) as int,
        ((x / 256) % 256) as int,
        (x % 256) as int,
    ]
}

/// Dotted-decimal text of an IPv4 address.
pub open spec fn ipv4_text(x: u32) -> Seq<char> {
    let o = ipv4_octets(x);
    dec_text(o[0] as nat) + seq!['.'] + dec_text(o[1] as nat) + seq!['.'] + dec_text(o[2] as nat)
        + seq!['.'] + dec_text(o[3] as nat)
}

/// The eight 16-bit groups of an IPv6 address, most significant first.
pub open spec fn ipv6_segments(x: u128) -> Seq<int> {
    seq![
        ((x / 5192296858534827628530496329220096) % 65536) as int,
        ((x / 79228162514264337593543950336) % 65536) as int,
        ((x / 1208925819614629174706176) % 65536) as int,
        ((x / 18446744073709551616) % 65536) as int,
        ((x / 281474976710656) % 65536) as int,
        ((x / 4294967296) % 65536) as int,
        ((x / 65536) % 65536) as int,
        (x % 65536) as int,
    ]
}

/// Number of zero groups starting at `i`.
pub open spec fn zero_run(s: Seq<int>, i: int) -> int
    decreases 8 - i,
{
    if i < 0 || i >= 8 || s[i] != 0 {
        0
    } else {
        1 + zero_run(s, i + 1)
    }
}

/// The longest run of zero groups starting at or after `i`, as (start, length);
/// among equally long runs the first; (0, 0) when there is none.
pub open spec fn longest_zero_run(s: Seq<int>, i: int) -> (int, int)
    decreases 8 - i,
{
    if i < 0 || i >= 8 {
        (0, 0)
    } else {
        let rest = longest_zero_run(s, i + 1);
        let here = zero_run(s, i);
        if here > 0 && here >= rest.1 {
            (i, here)
        } else {
            rest
        }
    }
}

/// Groups `a` up to (not including) `b`, in lowercase hex, separated by `:`.
pub open spec fn hex_groups(s: Seq<int>, a: int, b: int) -> Seq<char>
    decreases b - a,
{
    if b <= a {
        Seq::empty()
    } else if b == a + 1 {
        hex_text(s[a] as nat)
    } else {
        hex_groups(s, a, b - 1) + seq![':'] + hex_text(s[b - 1] as nat)
    }
}

/// Canonical text of an IPv6 address: an IPv4-mapped address as
/// `::ffff:a.b.c.d`; otherwise lowercase hex groups with the first longest run
/// of two or more zero groups written as `::`.
pub open spec fn ipv6_text(x: u128) -> Seq<char> {
    if x / 4294967296 == 65535 {
        seq![':', ':', 'f', 'f', 'f', 'f', ':'] + ipv4_text((x % 4294967296) as u32)
    } else {
        let s = ipv6_segments(x);
        let run = longest_zero_run(s, 0);
        if run.1 > 1 {
            hex_groups(s, 0, run.0) + seq![':', ':'] + hex_groups(s, run.0 + run.1, 8)
        } else {
            hex_groups(s, 0, 8)
        }
    }
}

/// Text of an address.
pub open spec fn ip_text(ip: IpAddress) -> Seq<char> {
    match ip {
        IpAddress::V4(x) => ipv4_text(x),
        IpAddress::V6(x) => ipv6_text(x),
    }
}

fn push_ipv4(s: &mut String, x: u32)
    ensures
        final(s)@ == old(s)@ + ipv4_text(x),
{
    push_decimal(s, ((x / 16777216) % 256) as u64);
    push_char(s, '.');
    push_decimal(s, ((x / 65536) % 256) as u64);
    push_char(s, '.');
    push_decimal(s, ((x / 256) % 256) as u64);
    push_char(s, '.');
    push_decimal(s, (x % 256) as u64);
    assert(s@ =~= old(s)@ + ipv4_text(x));
}

fn push_groups(s: &mut String, segs: &Vec<u64>, a: usize, b: usize)
    requires
        segs@.len() == 8,
        a <= b <= 8,
    ensures
        final(s)@ == old(s)@ + hex_groups(segs@.map_values(|v: u64| v as int), a as int, b as int),
{
    let ghost sv = segs@.map_values(|v: u64| v as int);
    let mut i = a;
    assert(old(s)@ =~= old(s)@ + hex_groups(sv, a as int, a as int));
    while i < b
        invariant
            segs@.len() == 8,
            sv == segs@.map_values(|v: u64| v as int),
            a <= i <= b <= 8,
            s@ == old(s)@ + hex_groups(sv, a as int, i as int),
        decreases b - i,
    {
        if i > a {
            push_char(s, ':');
        }
        push_hex(s, segs[i]);
        proof {
            assert(sv[i as int] == segs@[i as int] as int);
            if i > a {
                assert(hex_groups(sv, a as int, i + 1) == hex_groups(sv, a as int, i as int) + seq![':']
                    + hex_text(sv[i as int] as nat));
            } else {
                assert(hex_groups(sv, a as int, i + 1) == hex_text(sv[i as int] as nat));
            }
        }
        assert(s@ =~= old(s)@ + hex_groups(sv, a as int, i + 1));
        i = i + 1;
    }
}

fn segments_of(x: u128) -> (r: Vec<u64>)
    ensures
        r@.len() == 8,
        r@.map_values(|v: u64| v as int) == ipv6_segments(x),
{
    let mut r: Vec<u64> = Vec::new();
    r.push(((x / 5192296858534827628530496329220096) % 65536) as u64);
    r.push(((x / 79228162514264337593543950336) % 65536) as u64);
    r.push(((x / 1208925819614629174706176) % 65536) as u64);
    r.push(((x / 18446744073709551616) % 65536) as u64);
    r.push(((x / 281474976710656) % 65536) as u64);
    r.push(((x / 4294967296) % 65536) as u64);
    r.push(((x / 65536) % 65536) as u64);
    r.push((x % 65536) as u64);
    assert(r@.map_values(|v: u64| v as int) =~= ipv6_segments(x));
    r
}

fn longest_run_of(segs: &Vec<u64>) -> (r: (usize, usize))
    requires
        segs@.len() == 8,
    ensures
        r.0 as int == longest_zero_run(segs@.map_values(|v: u64| v as int), 0).0,
        r.1 as int == longest_zero_run(segs@.map_values(|v: u64| v as int), 0).1,
        r.0 + r.1 <= 8,
{
    let ghost sv = segs@.map_values(|v: u64| v as int);
    let mut i: usize = 8;
    let mut run: usize = 0;
    let mut best_start: usize = 0;
    let mut best_len: usize = 0;
    while i > 0
        invariant
            segs@.len() == 8,
            sv == segs@.map_values(|v: u64| v as int),
            i <= 8,
            run as int == zero_run(sv, i as int),
            best_start as int == longest_zero_run(sv, i as int).0,
            best_len as int == longest_zero_run(sv, i as int).1,
            run + i <= 8,
            best_start + best_len <= 8,
        decreases i,
    {
        i = i - 1;
        assert(sv[i as int] == segs@[i as int] as int);
        if segs[i] == 0 {
            run = run + 1;
        } else {
            run = 0;
        }
        if run > 0 && run >= best_len {
            best_start = i;
            best_len = run;
        }
    }
    (best_start, best_len)
}

impl IpAddress {
    /// The address in its usual text form.
    pub fn to_text(&self) -> (r: String)
        ensures
            r@ == ip_text(*self),
    {
        let mut s = String::new();
        match self {
            IpAddress::V4(x) => {
                push_ipv4(&mut s, *x);
            },
            IpAddress::V6(x) => {
                let x = *x;
                if x / 4294967296 == 65535 {
                    push_char(&mut s, ':');
                    push_char(&mut s, ':');
                    push_char(&mut s, 'f');
                    push_char(&mut s, 'f');
                    push_char(&mut s, 'f');
                    push_char(&mut s, 'f');
                    push_char(&mut s, ':');
                    push_ipv4(&mut s, (x % 4294967296) as u32);
                } else {
                    let segs = segments_of(x);
                    let (start, len) = longest_run_of(&segs);
                    if len > 1 {
                        push_groups(&mut s, &segs, 0, start);
                        push_char(&mut s, ':');
                        push_char(&mut s, ':');
                        push_groups(&mut s, &segs, start + len, 8);
                    } else {
                        push_groups(&mut s, &segs, 0, 8);
                    }
                }
            },
        }
        assert(s@ =~= ip_text(*self));
        s
    }
}

} // verus!
