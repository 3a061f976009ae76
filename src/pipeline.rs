//! The aggregation pipeline for one capture and for a batch of captures.

use vstd::prelude::*;
use crate::addr::{ipv4_of, parse_ipv4, Ipv4};
use crate::aggregate::{
    aggregate_flows, aggregate_spec, empty_aggregation, line_views, AggregationResult,
    AggregationView, CounterOverflow,
};
use crate::filter::{filter_view, keyword_view, post_filter};
use crate::local::{find_local_host, local_host_outcome, LocalHostError, LocalHostStrategy};
use crate::merge::{merge_results, merge_views, view_fits};
use crate::stats::lemma_table_index;

verus! {

/// Why one capture could not be analysed.
#[derive(Clone, Copy, Debug, PartialEq, Eq, Structural)]
pub enum AnalysisError {
    /// No local host could be chosen.
    LocalHost(LocalHostError),
    /// A counter would exceed `u64::MAX`.
    Overflow(CounterOverflow),
}

/// Every host's totals are the sums of its upload and download parts.
pub proof fn lemma_stats_balanced(r: AggregationResult)
    requires
        r.wf(),
    ensures
        forall|k: Ipv4| #[trigger] r@.stats.contains_key(k) ==> r@.stats[k].balanced(),
{
    assert forall|k: Ipv4| #[trigger] r@.stats.contains_key(k) implies r@.stats[k].balanced() by {
        crate::stats::lemma_table_dom(r.stats@, k);
        let i = choose|i: int| 0 <= i < r.stats@.len() && (#[trigger] r.stats@[i]).ip == k;
        lemma_table_index(r.stats@, i);
    }
}

/// Every counter of a result fits in a `u64`, as it is held in one.
pub proof fn lemma_result_fits(r: AggregationResult)
    requires
        r.wf(),
    ensures
        view_fits(r@),
{
    assert forall|k: Ipv4| #[trigger] r@.stats.contains_key(k) implies r@.stats[k].fits() by {
        crate::stats::lemma_table_dom(r.stats@, k);
        let i = choose|i: int| 0 <= i < r.stats@.len() && (#[trigger] r.stats@[i]).ip == k;
        lemma_table_index(r.stats@, i);
    }
}

/// Aggregates `lines` around the host written in `local_ip`, then applies the
/// post-filter with `company` as keyword.  Where `local_ip` is no IPv4
/// address, no record is attributed.
pub fn aggregate_with_local_ip(lines: &[String], local_ip: &str, company: Option<&str>) -> (r:
    Result<AggregationResult, CounterOverflow>)
    ensures
        match r {
            Ok(a) => a.wf() && a@ == filter_view(
                aggregate_spec(line_views(lines@), ipv4_of(local_ip@)),
                keyword_view(company),
            ),
            Err(_) => aggregate_spec(line_views(lines@), ipv4_of(local_ip@)).total_bytes
                > u64::MAX,
        },
{
    let mut a = match parse_ipv4(local_ip) {
        Some(ip) => aggregate_flows(lines, ip)?,
        None => {
            proof {
                lemma_no_local(line_views(lines@));
            }
            AggregationResult::new()
        },
    };
    post_filter(&mut a, company);
    Ok(a)
}

proof fn lemma_no_local(lines: Seq<Seq<char>>)
    ensures
        aggregate_spec(lines, None) == empty_aggregation(),
    decreases lines.len(),
{
    if lines.len() > 0 {
        lemma_no_local(lines.drop_last());
    }
}

/// One capture from its lines: detect the local host under `strategy`,
/// aggregate around it, and apply the post-filter with `keyword`.
pub fn analyze_lines(lines: &[String], strategy: LocalHostStrategy, keyword: Option<&str>) -> (r:
    Result<(Ipv4, AggregationResult), AnalysisError>)
    ensures
        match r {
            Ok((ip, a)) => local_host_outcome(line_views(lines@), strategy, Ok(ip)) && a.wf()
                && a@ == filter_view(
                aggregate_spec(line_views(lines@), Some(ip)),
                keyword_view(keyword),
            ),
            Err(AnalysisError::LocalHost(e)) => local_host_outcome(
                line_views(lines@),
                strategy,
                Err(e),
            ),
            Err(AnalysisError::Overflow(_)) => exists|ip: Ipv4|
                local_host_outcome(line_views(lines@), strategy, Ok(ip)) && aggregate_spec(
                    line_views(lines@),
                    Some(ip),
                ).total_bytes > u64::MAX,
        },
{
    let local = match find_local_host(lines, strategy) {
        Ok(ip) => ip,
        Err(e) => {
            return Err(AnalysisError::LocalHost(e));
        },
    };
    let mut a = match aggregate_flows(lines, local) {
        Ok(a) => a,
        Err(e) => {
            return Err(AnalysisError::Overflow(e));
        },
    };
    post_filter(&mut a, keyword);
    Ok((local, a))
}

/// The unfiltered aggregations of several captures folded, in order, into
/// one accumulator that starts empty.
pub open spec fn fold_views(vs: Seq<AggregationView>) -> AggregationView
    decreases vs.len(),
{
    if vs.len() == 0 {
        empty_aggregation()
    } else {
        merge_views(fold_views(vs.drop_last()), vs.last())
    }
}

pub open spec fn result_views(rs: Seq<AggregationResult>) -> Seq<AggregationView> {
    rs.map_values(|r: AggregationResult| r@)
}

/// Merges the unfiltered aggregations of several captures, then applies the
/// post-filter once, to the merged result.  Fails where the running
/// accumulator would hold a counter beyond `u64::MAX`.
#[verifier::loop_isolation(false)]
pub fn merge_all(results: Vec<AggregationResult>, keyword: Option<&str>) -> (r: Result<
    AggregationResult,
    CounterOverflow,
>)
    requires
        forall|i: int| 0 <= i < results@.len() ==> (#[trigger] results@[i]).wf(),
    ensures
        match r {
            Ok(a) => a.wf() && view_fits(fold_views(result_views(results@))) && a@ == filter_view(
                fold_views(result_views(results@)),
                keyword_view(keyword),
            ),
            Err(_) => exists|i: int|
                0 <= i <= results@.len() && !view_fits(
                    #[trigger] fold_views(result_views(results@).take(i)),
                ),
        },
{
    let ghost vs = result_views(results@);
    let mut rest: Vec<AggregationResult> = Vec::new();
    let mut src = results;
    let ghost s0 = src@;
    while src.len() > 0
        invariant
            s0 == src@ + rest@.reverse(),
        decreases src@.len(),
    {
        let e = src.pop().unwrap();
        rest.push(e);
        proof {
            assert(s0 =~= src@ + rest@.reverse());
        }
    }
    let ghost n = rest@.len();
    assert(rest@.reverse() =~= s0);
    let mut acc = AggregationResult::new();
    proof {
        assert(vs.take(0) =~= Seq::<AggregationView>::empty());
    }
    while rest.len() > 0
        invariant
            vs == result_views(s0),
            n == s0.len(),
            forall|i: int| 0 <= i < s0.len() ==> (#[trigger] s0[i]).wf(),
            rest@.len() <= n,
            forall|j: int| 0 <= j < rest@.len() ==> #[trigger] rest@[j] == s0[n - 1 - j],
            acc.wf(),
            acc@ == fold_views(vs.take(n - rest@.len())),
        decreases rest@.len(),
    {
        let ghost i = n - rest@.len();
        let e = rest.pop().unwrap();
        proof {
            assert(e == s0[i]);
            assert(vs.take(i + 1).drop_last() =~= vs.take(i));
            assert(vs.take(i + 1).last() == e@);
        }
        acc = match merge_results(acc, e) {
            Ok(m) => m,
            Err(err) => {
                proof {
                    assert(fold_views(vs.take(i + 1)) == merge_views(fold_views(vs.take(i)), e@));
                    assert(!view_fits(fold_views(result_views(results@).take(i + 1))));
                }
                return Err(err);
            },
        };
    }
    proof {
        assert(vs.take(n as int) =~= vs);
        lemma_result_fits(acc);
    }
    post_filter(&mut acc, keyword);
    Ok(acc)
}

} // verus!
