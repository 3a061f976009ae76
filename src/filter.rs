//! The post-filter: drops low-volume hosts and, on request, hosts whose
//! domain names do not match a keyword.

use vstd::prelude::*;
use crate::addr::Ipv4;
use crate::aggregate::{AggregationResult, AggregationView};
use crate::stats::{
    keys_distinct, lemma_table_dom, lemma_table_push, string_views, table_view, table_wf,
    FlowStat, FlowStatView, HostEntry,
};
use crate::text::{contains_substring, is_substring, lower_of, lowercase};

verus! {

/// Hosts with fewer bytes than this in total are dropped as noise.
pub const MIN_TOTAL_BYTES: u64 = 1024;

/// Some domain name, lower-cased, contains `keyword_lower`.
pub open spec fn domains_match(domains: Set<Seq<char>>, keyword_lower: Seq<char>) -> bool {
    exists|d: Seq<char>| #[trigger] domains.contains(d) && is_substring(keyword_lower, lower_of(d))
}

/// Whether the post-filter keeps a host.
pub open spec fn keeps(s: FlowStatView, keyword: Option<Seq<char>>) -> bool {
    s.total_bytes >= MIN_TOTAL_BYTES && match keyword {
        None => true,
        Some(k) => domains_match(s.domains, lower_of(k)),
    }
}

pub open spec fn filter_map(m: Map<Ipv4, FlowStatView>, keyword: Option<Seq<char>>) -> Map<
    Ipv4,
    FlowStatView,
> {
    Map::new(|k: Ipv4| m.contains_key(k) && keeps(m[k], keyword), |k: Ipv4| m[k])
}

/// An aggregation after the post-filter; the grand totals stay as they were.
pub open spec fn filter_view(v: AggregationView, keyword: Option<Seq<char>>) -> AggregationView {
    AggregationView { stats: filter_map(v.stats, keyword), ..v }
}

pub open spec fn keyword_view(keyword: Option<&str>) -> Option<Seq<char>> {
    match keyword {
        Some(k) => Some(k@),
        None => None,
    }
}

/// Filtering twice with the same keyword keeps what filtering once keeps.
pub proof fn lemma_filter_idempotent(v: AggregationView, keyword: Option<Seq<char>>)
    ensures
        filter_view(filter_view(v, keyword), keyword) == filter_view(v, keyword),
{
    assert(filter_map(filter_map(v.stats, keyword), keyword) =~= filter_map(v.stats, keyword));
}

/// Whether some domain name, lower-cased, contains `keyword_lower`.
pub fn any_domain_matches(domains: &Vec<String>, keyword_lower: &str) -> (r: bool)
    ensures
        r == domains_match(string_views(domains@).to_set(), keyword_lower@),
{
    let mut i: usize = 0;
    while i < domains.len()
        invariant
            0 <= i <= domains@.len(),
            forall|j: int|
                0 <= j < i ==> !is_substring(keyword_lower@, lower_of(#[trigger] domains@[j]@)),
        decreases domains@.len() - i,
    {
        let low = lowercase(domains[i].as_str());
        if contains_substring(low.as_str(), keyword_lower) {
            assert(string_views(domains@)[i as int] == domains@[i as int]@);
            assert(string_views(domains@).to_set().contains(domains@[i as int]@));
            return true;
        }
        i = i + 1;
    }
    proof {
        assert forall|d: Seq<char>|
            #[trigger] string_views(domains@).to_set().contains(d) implies !is_substring(
            keyword_lower@,
            lower_of(d),
        ) by {
            let j = choose|j: int| 0 <= j < string_views(domains@).len() && string_views(domains@)[j] == d;
            assert(domains@[j]@ == d);
        }
    }
    false
}

/// Whether the post-filter keeps a host, the keyword already lower-cased.
fn stat_kept(stat: &FlowStat, keyword_lower: &Option<String>, Ghost(keyword): Ghost<Option<Seq<char>>>) -> (r: bool)
    requires
        match keyword {
            None => keyword_lower is None,
            Some(k) => keyword_lower is Some && keyword_lower->0@ == lower_of(k),
        },
    ensures
        r == keeps(stat@, keyword),
{
    if stat.total_bytes < MIN_TOTAL_BYTES {
        return false;
    }
    match keyword_lower {
        None => true,
        Some(k) => any_domain_matches(&stat.domains, k.as_str()),
    }
}

/// Drops every host under `MIN_TOTAL_BYTES` and, with a keyword, every host
/// none of whose domain names contains the keyword, ignoring case.
pub fn post_filter(result: &mut AggregationResult, keyword: Option<&str>)
    requires
        old(result).wf(),
    ensures
        final(result).wf(),
        final(result)@ == filter_view(old(result)@, keyword_view(keyword)),
{
    let ghost kw = keyword_view(keyword);
    let keyword_lower: Option<String> = match keyword {
        Some(k) => Some(lowercase(k)),
        None => None,
    };
    let mut src: Vec<HostEntry> = Vec::new();
    std::mem::swap(&mut src, &mut result.stats);
    let ghost s0 = src@;
    let ghost m0 = table_view(s0);
    let mut kept: Vec<HostEntry> = Vec::new();
    let mut rest: Vec<HostEntry> = Vec::new();
    // Take the entries off the end, then restore their order.
    while src.len() > 0
        invariant
            table_wf(s0),
            s0 == src@ + rest@.reverse(),
            decreases src@.len(),
    {
        let e = src.pop().unwrap();
        rest.push(e);
        proof {
            assert(s0 =~= src@ + rest@.reverse());
        }
    }
    let ghost n = rest@.len();
    assert(rest@.reverse() =~= s0);
    while rest.len() > 0
        invariant
            table_wf(s0),
            m0 == table_view(s0),
            n == s0.len(),
            rest@.len() <= n,
            forall|j: int| 0 <= j < rest@.len() ==> #[trigger] rest@[j] == s0[n - 1 - j],
            table_wf(kept@),
            table_view(kept@) == filter_map(table_view(s0.take(n - rest@.len())), kw),
            match kw {
                None => keyword_lower is None,
                Some(k) => keyword_lower is Some && keyword_lower->0@ == lower_of(k),
            },
        decreases rest@.len(),
    {
        let ghost i = n - rest@.len();
        let e = rest.pop().unwrap();
        proof {
            assert(e == s0[i]);
            assert(s0.take(i + 1).drop_last() =~= s0.take(i));
            assert(s0.take(i + 1).last() == e);
            assert(keys_distinct(s0.take(i)));
            lemma_table_dom(s0.take(i), e.ip);
            assert forall|j: int| 0 <= j < s0.take(i).len() implies (#[trigger] s0.take(i)[j]).ip != e.ip by {
                assert(s0.take(i)[j] == s0[j]);
            }
        }
        if stat_kept(&e.stat, &keyword_lower, Ghost(kw)) {
            proof {
                lemma_table_push(kept@, e);
                assert(s0[i].stat.wf());
            }
            kept.push(e);
            proof {
                assert forall|j: int| 0 <= j < kept@.len() implies (#[trigger] kept@[j]).stat.wf() by {
                    if j < kept@.len() - 1 {
                    }
                }
                assert(table_view(kept@) =~= filter_map(table_view(s0.take(i + 1)), kw));
            }
        } else {
            proof {
                assert(table_view(kept@) =~= filter_map(table_view(s0.take(i + 1)), kw));
            }
        }
    }
    proof {
        assert(s0.take(n as int) =~= s0);
    }
    result.stats = kept;
    assert(result@.stats =~= filter_view(old(result)@, kw).stats);
}

} // verus!
