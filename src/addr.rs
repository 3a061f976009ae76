//! IPv4 addresses: dotted-decimal parsing, the address classes that decide
//! how a flow is treated, and the textual form of an address.

use vstd::prelude::*;
use crate::text::{chars_of, push_char, split_fields, split_on};

verus! {

/// An IPv4 address, as its four octets in network order.
#[derive(Clone, Copy, Debug, PartialEq, Eq, Structural, Hash)]
pub struct Ipv4 {
    pub a: u8,
    pub b: u8,
    pub c: u8,
    pub d: u8,
}

pub open spec fn is_digit(c: char) -> bool {
    '0' <= c && c <= '9'
}

pub open spec fn digit_value(c: char) -> nat {
    (c as u32 - '0' as u32) as nat
}

/// The number written by a sequence of decimal digits (0 for the empty sequence).
pub open spec fn decimal_value(s: Seq<char>) -> nat
    decreases s.len(),
{
    if s.len() == 0 {
        0
    } else {
        decimal_value(s.drop_last()) * 10 + digit_value(s.last())
    }
}

pub open spec fn all_digits(s: Seq<char>) -> bool {
    forall|i: int| 0 <= i < s.len() ==> is_digit(#[trigger] s[i])
}

/// One octet of a dotted-decimal address: one to three digits, no leading zero
/// unless the octet is `0` itself, and a value of at most 255.
pub open spec fn octet_of(s: Seq<char>) -> Option<u8> {
    if 1 <= s.len() <= 3 && all_digits(s) && !(s.len() > 1 && s[0] == '0') && decimal_value(s)
        <= 255 {
        Some(decimal_value(s) as u8)
    } else {
        None
    }
}

/// The address that `s` writes in dotted-decimal form, if it is one: exactly
/// four octets separated by dots, nothing before or after.
pub open spec fn ipv4_of(s: Seq<char>) -> Option<Ipv4> {
    let parts = split_on(s, '.');
    if parts.len() == 4 && octet_of(parts[0]) is Some && octet_of(parts[1]) is Some && octet_of(
        parts[2],
    ) is Some && octet_of(parts[3]) is Some {
        Some(
            Ipv4 {
                a: octet_of(parts[0])->0,
                b: octet_of(parts[1])->0,
                c: octet_of(parts[2])->0,
                d: octet_of(parts[3])->0,
            },
        )
    } else {
        None
    }
}

/// Private ranges: 10.0.0.0/8, 172.16.0.0/12 and 192.168.0.0/16.
pub open spec fn is_lan_spec(ip: Ipv4) -> bool {
    ip.a == 10 || (ip.a == 172 && 16 <= ip.b && ip.b <= 31) || (ip.a == 192 && ip.b == 168)
}

/// Addresses that name no single host: loopback (127.0.0.0/8), link-local
/// (169.254.0.0/16), the broadcast address and multicast (224.0.0.0/4).
pub open spec fn is_non_host_spec(ip: Ipv4) -> bool {
    ip.a == 127 || (ip.a == 169 && ip.b == 254) || (ip.a == 255 && ip.b == 255 && ip.c == 255
        && ip.d == 255) || (224 <= ip.a && ip.a <= 239)
}

pub open spec fn is_unspecified_spec(ip: Ipv4) -> bool {
    ip.a == 0 && ip.b == 0 && ip.c == 0 && ip.d == 0
}

/// A private-range address whose last octet is 1.
pub open spec fn is_gateway_spec(ip: Ipv4) -> bool {
    is_lan_spec(ip) && ip.d == 1
}

/// An address that may be taken for the local host.
pub open spec fn is_candidate_spec(ip: Ipv4) -> bool {
    is_lan_spec(ip) && !is_non_host_spec(ip) && !is_unspecified_spec(ip)
}

/// A routable unicast address: not private, loopback, link-local, broadcast,
/// in 0.0.0.0/8, nor in 224.0.0.0 and above.
pub open spec fn is_public_spec(ip: Ipv4) -> bool {
    !(is_lan_spec(ip) || ip.a == 127 || (ip.a == 169 && ip.b == 254) || (ip.a == 255 && ip.b
        == 255 && ip.c == 255 && ip.d == 255) || ip.a == 0 || ip.a >= 224)
}

pub fn is_lan_ip(ip: &Ipv4) -> (r: bool)
    ensures
        r == is_lan_spec(*ip),
{
    ip.a == 10 || (ip.a == 172 && 16 <= ip.b && ip.b <= 31) || (ip.a == 192 && ip.b == 168)
}

pub fn is_non_host_ip(ip: &Ipv4) -> (r: bool)
    ensures
        r == is_non_host_spec(*ip),
{
    ip.a == 127 || (ip.a == 169 && ip.b == 254) || (ip.a == 255 && ip.b == 255 && ip.c == 255
        && ip.d == 255) || (224 <= ip.a && ip.a <= 239)
}

pub fn is_gateway_ip(ip: &Ipv4) -> (r: bool)
    ensures
        r == is_gateway_spec(*ip),
{
    is_lan_ip(ip) && ip.d == 1
}

pub fn is_candidate_ip(ip: &Ipv4) -> (r: bool)
    ensures
        r == is_candidate_spec(*ip),
{
    is_lan_ip(ip) && !is_non_host_ip(ip) && !(ip.a == 0 && ip.b == 0 && ip.c == 0 && ip.d == 0)
}

pub fn is_public_ipv4(ip: &Ipv4) -> (r: bool)
    ensures
        r == is_public_spec(*ip),
{
    !(is_lan_ip(ip) || ip.a == 127 || (ip.a == 169 && ip.b == 254) || (ip.a == 255 && ip.b == 255
        && ip.c == 255 && ip.d == 255) || ip.a == 0 || ip.a >= 224)
}

fn parse_octet(s: &String) -> (r: Option<u8>)
    ensures
        r == octet_of(s@),
{
    let cs = chars_of(s.as_str());
    if cs.len() < 1 || cs.len() > 3 {
        return None;
    }
    if cs.len() > 1 && cs[0] == '0' {
        return None;
    }
    let mut v: u32 = 0;
    let mut i: usize = 0;
    while i < cs.len()
        invariant
            cs@ == s@,
            1 <= cs.len() <= 3,
            i <= cs.len(),
            all_digits(s@.take(i as int)),
            v == decimal_value(s@.take(i as int)),
            v < 1000,
        decreases cs.len() - i,
    {
        let c = cs[i];
        if !('0' <= c && c <= '9') {
            assert(!all_digits(s@));
            return None;
        }
        proof {
            assert(s@.take(i + 1).drop_last() =~= s@.take(i as int));
            assert(v * 10 + 9 < 1000) by {
                lemma_decimal_bound(s@.take(i as int));
            }
        }
        v = v * 10 + (c as u32 - '0' as u32);
        i = i + 1;
        proof {
            assert forall|j: int| 0 <= j < i implies is_digit(#[trigger] s@.take(i as int)[j]) by {
                if j < i - 1 {
                    assert(s@.take(i as int)[j] == s@.take(i - 1)[j]);
                }
            }
        }
    }
    assert(s@.take(cs.len() as int) =~= s@);
    if v > 255 {
        None
    } else {
        Some(v as u8)
    }
}

proof fn lemma_decimal_bound(s: Seq<char>)
    requires
        all_digits(s),
        s.len() <= 2,
    ensures
        decimal_value(s) < 100,
        s.len() <= 1 ==> decimal_value(s) < 10,
    decreases s.len(),
{
    if s.len() > 0 {
        assert(all_digits(s.drop_last()));
        lemma_decimal_bound(s.drop_last());
    }
}

/// Reads a dotted-decimal IPv4 address, as `Ipv4Addr::from_str` accepts it.
pub fn parse_ipv4(s: &str) -> (r: Option<Ipv4>)
    ensures
        r == ipv4_of(s@),
{
    let parts = split_fields(s, '.');
    proof {
        assert(parts@.len() == split_on(s@, '.').len());
    }
    if parts.len() != 4 {
        return None;
    }
    proof {
        assert(parts@[0]@ == split_on(s@, '.')[0]);
        assert(parts@[1]@ == split_on(s@, '.')[1]);
        assert(parts@[2]@ == split_on(s@, '.')[2]);
        assert(parts@[3]@ == split_on(s@, '.')[3]);
    }
    let a = parse_octet(&parts[0]);
    let b = parse_octet(&parts[1]);
    let c = parse_octet(&parts[2]);
    let d = parse_octet(&parts[3]);
    match (a, b, c, d) {
        (Some(a), Some(b), Some(c), Some(d)) => Some(Ipv4 { a, b, c, d }),
        _ => None,
    }
}

pub open spec fn digit_char(d: nat) -> char {
    if d == 0 {
        '0'
    } else if d == 1 {
        '1'
    } else if d == 2 {
        '2'
    } else if d == 3 {
        '3'
    } else if d == 4 {
        '4'
    } else if d == 5 {
        '5'
    } else if d == 6 {
        '6'
    } else if d == 7 {
        '7'
    } else if d == 8 {
        '8'
    } else {
        '9'
    }
}

/// The decimal digits of `n`, without leading zeros (`0` for zero).
pub open spec fn decimal_text(n: nat) -> Seq<char>
    decreases n,
{
    if n < 10 {
        seq![digit_char(n)]
    } else {
        decimal_text(n / 10).push(digit_char(n % 10))
    }
}

fn digit_of(d: u64) -> (c: char)
    requires
        d < 10,
    ensures
        c == digit_char(d as nat),
{
    if d == 0 {
        '0'
    } else if d == 1 {
        '1'
    } else if d == 2 {
        '2'
    } else if d == 3 {
        '3'
    } else if d == 4 {
        '4'
    } else if d == 5 {
        '5'
    } else if d == 6 {
        '6'
    } else if d == 7 {
        '7'
    } else if d == 8 {
        '8'
    } else {
        '9'
    }
}

/// Appends the decimal digits of `n` to `s`.
pub fn push_decimal(s: &mut String, n: u64)
    ensures
        final(s)@ == old(s)@ + decimal_text(n as nat),
    decreases n,
{
    if n >= 10 {
        push_decimal(s, n / 10);
    }
    push_char(s, digit_of(n % 10));
    proof {
        if n < 10 {
            assert(decimal_text(n as nat) == seq![digit_char(n as nat)]);
        }
    }
    assert(final(s)@ =~= old(s)@ + decimal_text(n as nat));
}

/// The dotted-decimal form of an address.
pub open spec fn ipv4_text(ip: Ipv4) -> Seq<char> {
    decimal_text(ip.a as nat) + seq!['.'] + decimal_text(ip.b as nat) + seq!['.'] + decimal_text(
        ip.c as nat,
    ) + seq!['.'] + decimal_text(ip.d as nat)
}

/// Writes an address in dotted-decimal form.
pub fn format_ipv4(ip: &Ipv4) -> (r: String)
    ensures
        r@ == ipv4_text(*ip),
{
    let mut r = String::new();
    push_decimal(&mut r, ip.a as u64);
    push_char(&mut r, '.');
    push_decimal(&mut r, ip.b as u64);
    push_char(&mut r, '.');
    push_decimal(&mut r, ip.c as u64);
    push_char(&mut r, '.');
    push_decimal(&mut r, ip.d as u64);
    assert(r@ =~= ipv4_text(*ip));
    r
}

} // verus!
