//! The library's side of geolocation: which addresses may be looked up, how
//! they are batched, and how an answer becomes a location string.

use vstd::prelude::*;
use crate::addr::{ipv4_of, is_public_ipv4, is_public_spec, parse_ipv4, Ipv4};
use crate::text::push_all;

verus! {

/// One answer of the geolocation service.
pub struct RawIpInfo {
    pub ip: String,
    pub country: String,
    pub province: String,
    pub city: String,
    pub isp: String,
}

impl RawIpInfo {
    /// Country, province, city and carrier, written one after the other.
    pub fn location_text(&self) -> (r: String)
        ensures
            r@ == self.country@ + self.province@ + self.city@ + self.isp@,
    {
        let mut r = String::new();
        push_all(&mut r, self.country.as_str());
        push_all(&mut r, self.province.as_str());
        push_all(&mut r, self.city.as_str());
        push_all(&mut r, self.isp.as_str());
        assert(r@ =~= self.country@ + self.province@ + self.city@ + self.isp@);
        r
    }
}

/// Why a single address is not looked up.
#[derive(Clone, Copy, Debug, PartialEq, Eq, Structural)]
pub enum IpQueryError {
    /// The text is no dotted-decimal IPv4 address.
    Invalid,
    /// The address is not a public one.
    NotPublic,
}

/// Checks that `ip` is a public IPv4 address before it is looked up.
pub fn check_query_ip(ip: &str) -> (r: Result<Ipv4, IpQueryError>)
    ensures
        match r {
            Ok(a) => ipv4_of(ip@) == Some(a) && is_public_spec(a),
            Err(IpQueryError::Invalid) => ipv4_of(ip@) is None,
            Err(IpQueryError::NotPublic) => ipv4_of(ip@) is Some && !is_public_spec(
                ipv4_of(ip@)->0,
            ),
        },
{
    match parse_ipv4(ip) {
        None => Err(IpQueryError::Invalid),
        Some(a) => if is_public_ipv4(&a) {
            Ok(a)
        } else {
            Err(IpQueryError::NotPublic)
        },
    }
}

pub open spec fn chunk_views(r: Seq<Vec<String>>) -> Seq<Seq<Seq<char>>> {
    r.map_values(|c: Vec<String>| c@.map_values(|s: String| s@))
}

/// The batches laid end to end.
pub open spec fn concat_all(s: Seq<Seq<Seq<char>>>) -> Seq<Seq<char>>
    decreases s.len(),
{
    if s.len() == 0 {
        Seq::empty()
    } else {
        concat_all(s.drop_last()) + s.last()
    }
}

/// The addresses cut into batches of `batch_size`, in order: laid end to end
/// they give the list back, and every batch but the last holds exactly
/// `batch_size` addresses.
pub fn chunk_ips(ips: &Vec<String>, batch_size: usize) -> (r: Vec<Vec<String>>)
    requires
        batch_size > 0,
    ensures
        concat_all(chunk_views(r@)) == ips@.map_values(|s: String| s@),
        forall|i: int| 0 <= i < r@.len() ==> 0 < (#[trigger] r@[i])@.len() <= batch_size,
        forall|i: int| 0 <= i < r@.len() - 1 ==> (#[trigger] r@[i])@.len() == batch_size,
{
    let ghost v = ips@.map_values(|s: String| s@);
    let mut r: Vec<Vec<String>> = Vec::new();
    let mut start: usize = 0;
    proof {
        assert(concat_all(chunk_views(r@)) =~= v.take(0));
    }
    while start < ips.len()
        invariant
            v == ips@.map_values(|s: String| s@),
            batch_size > 0,
            start <= ips@.len(),
            concat_all(chunk_views(r@)) == v.take(start as int),
            forall|i: int| 0 <= i < r@.len() ==> 0 < (#[trigger] r@[i])@.len() <= batch_size,
            forall|i: int| 0 <= i < r@.len() - 1 ==> (#[trigger] r@[i])@.len() == batch_size,
            start < ips@.len() ==> forall|i: int|
                0 <= i < r@.len() ==> (#[trigger] r@[i])@.len() == batch_size,
        decreases ips@.len() - start,
    {
        let end: usize = if ips.len() - start > batch_size {
            start + batch_size
        } else {
            ips.len()
        };
        let mut chunk: Vec<String> = Vec::new();
        let mut k: usize = start;
        while k < end
            invariant
                start <= k <= end <= ips@.len(),
                chunk@.map_values(|s: String| s@) == v.subrange(start as int, k as int),
                v == ips@.map_values(|s: String| s@),
            decreases end - k,
        {
            let ghost c0 = chunk@;
            let c = ips[k].clone();
            assert(c@ == ips@[k as int]@);
            chunk.push(c);
            proof {
                assert(v[k as int] == ips@[k as int]@);
                assert(chunk@.map_values(|s: String| s@) =~= c0.map_values(|s: String| s@).push(c@));
                assert(chunk@.map_values(|s: String| s@) =~= v.subrange(start as int, k + 1));
            }
            k = k + 1;
        }
        let ghost r0 = r@;
        r.push(chunk);
        proof {
            assert(chunk_views(r@).drop_last() =~= chunk_views(r0));
            assert(v.take(end as int) =~= v.take(start as int) + v.subrange(start as int, end as int));
        }
        start = end;
    }
    proof {
        assert(v.take(ips@.len() as int) =~= v);
    }
    r
}

} // verus!
