//! The merge reducer: folds the aggregation of one capture into a running
//! accumulator, summing counters and joining domain sets per host.

use vstd::prelude::*;
use crate::addr::Ipv4;
use crate::aggregate::{empty_aggregation, AggregationResult, AggregationView, CounterOverflow};
use crate::stats::{
    add_domain, distinct_views, lemma_table_dom, lemma_table_index,
    lemma_table_push, lemma_table_update, string_views, table_view, table_wf, FlowStatView,
    HostEntry,
};

verus! {

/// Two statistics of one host added field by field, their domain sets joined.
pub open spec fn merge_stat(a: FlowStatView, b: FlowStatView) -> FlowStatView {
    FlowStatView {
        total_pkts: a.total_pkts + b.total_pkts,
        total_bytes: a.total_bytes + b.total_bytes,
        up_pkts: a.up_pkts + b.up_pkts,
        up_bytes: a.up_bytes + b.up_bytes,
        down_pkts: a.down_pkts + b.down_pkts,
        down_bytes: a.down_bytes + b.down_bytes,
        domains: a.domains.union(b.domains),
    }
}

/// Every host of either map; a host of both gets the merged statistics.
pub open spec fn merge_maps(a: Map<Ipv4, FlowStatView>, b: Map<Ipv4, FlowStatView>) -> Map<
    Ipv4,
    FlowStatView,
> {
    Map::new(
        |k: Ipv4| a.contains_key(k) || b.contains_key(k),
        |k: Ipv4|
            if a.contains_key(k) && b.contains_key(k) {
                merge_stat(a[k], b[k])
            } else if a.contains_key(k) {
                a[k]
            } else {
                b[k]
            },
    )
}

/// Two aggregations merged: hosts merged, grand totals summed.
pub open spec fn merge_views(a: AggregationView, b: AggregationView) -> AggregationView {
    AggregationView {
        stats: merge_maps(a.stats, b.stats),
        total_bytes: a.total_bytes + b.total_bytes,
        total_up: a.total_up + b.total_up,
        total_down: a.total_down + b.total_down,
    }
}

/// Every counter and grand total fits in a `u64`.
pub open spec fn view_fits(v: AggregationView) -> bool {
    &&& 0 <= v.total_bytes <= u64::MAX
    &&& 0 <= v.total_up <= u64::MAX
    &&& 0 <= v.total_down <= u64::MAX
    &&& forall|k: Ipv4| #[trigger] v.stats.contains_key(k) ==> v.stats[k].fits()
}

/// Merging in either order gives the same accumulator.
pub proof fn lemma_merge_commutative(a: AggregationView, b: AggregationView)
    ensures
        merge_views(a, b) == merge_views(b, a),
{
    assert forall|k: Ipv4| #[trigger] a.stats.contains_key(k) && b.stats.contains_key(k) implies merge_stat(
        a.stats[k],
        b.stats[k],
    ) == merge_stat(b.stats[k], a.stats[k]) by {
        assert(a.stats[k].domains.union(b.stats[k].domains) =~= b.stats[k].domains.union(
            a.stats[k].domains,
        ));
    }
    assert(merge_maps(a.stats, b.stats) =~= merge_maps(b.stats, a.stats));
}

/// Merging is associative: how the files are grouped does not matter.
pub proof fn lemma_merge_associative(a: AggregationView, b: AggregationView, c: AggregationView)
    ensures
        merge_views(merge_views(a, b), c) == merge_views(a, merge_views(b, c)),
{
    let l = merge_maps(merge_maps(a.stats, b.stats), c.stats);
    let r = merge_maps(a.stats, merge_maps(b.stats, c.stats));
    assert forall|k: Ipv4| #[trigger] l.contains_key(k) implies l[k] == r[k] by {
        if a.stats.contains_key(k) && b.stats.contains_key(k) && c.stats.contains_key(k) {
            assert(a.stats[k].domains.union(b.stats[k].domains).union(c.stats[k].domains)
                =~= a.stats[k].domains.union(b.stats[k].domains.union(c.stats[k].domains)));
        }
    }
    assert(l =~= r);
}

/// The empty aggregation is the starting point of a fold: merging into it
/// yields the other side unchanged.
pub proof fn lemma_merge_empty(a: AggregationView)
    ensures
        merge_views(empty_aggregation(), a) == a,
{
    assert(merge_maps(Map::empty(), a.stats) =~= a.stats);
}

/// Adds the names of `src` to the distinct names of `dst`.
fn union_domains(dst: &mut Vec<String>, src: Vec<String>)
    requires
        distinct_views(old(dst)@),
    ensures
        distinct_views(final(dst)@),
        string_views(final(dst)@).to_set() == string_views(old(dst)@).to_set().union(
            string_views(src@).to_set(),
        ),
{
    let mut src = src;
    let ghost target = string_views(old(dst)@).to_set().union(string_views(src@).to_set());
    while src.len() > 0
        invariant
            distinct_views(dst@),
            string_views(dst@).to_set().union(string_views(src@).to_set()) == target,
        decreases src@.len(),
    {
        let ghost s0 = src@;
        let d = src.pop().unwrap();
        proof {
            assert(s0 =~= src@.push(d));
            assert(string_views(s0) =~= string_views(src@) + seq![d@]);
            Seq::lemma_to_set_insert_commutes(string_views(src@), d@);
        }
        let ghost before = string_views(dst@).to_set();
        add_domain(dst, d);
        proof {
            assert(string_views(dst@).to_set().union(string_views(src@).to_set()) =~= target);
        }
    }
    assert(string_views(src@).to_set() =~= Set::empty());
    assert(string_views(dst@).to_set() =~= target);
}

/// Folds `other` into `acc`: a host of both gets its counters summed and its
/// domain sets joined, a host of one side is taken as it is, and the grand
/// totals are summed.  Fails exactly where a merged counter or total would
/// not fit in a `u64`.
#[verifier::loop_isolation(false)]
pub fn merge_results(acc: AggregationResult, other: AggregationResult) -> (r: Result<
    AggregationResult,
    CounterOverflow,
>)
    requires
        acc.wf(),
        other.wf(),
    ensures
        match r {
            Ok(m) => m.wf() && m@ == merge_views(acc@, other@),
            Err(_) => !view_fits(merge_views(acc@, other@)),
        },
{
    let ghost a0 = acc@;
    let ghost b0 = other@;
    let ghost merged = merge_views(a0, b0);
    if acc.total_bytes > u64::MAX - other.total_bytes || acc.total_up > u64::MAX - other.total_up
        || acc.total_down > u64::MAX - other.total_down {
        return Err(CounterOverflow);
    }
    let mut acc = acc;
    acc.total_bytes = acc.total_bytes + other.total_bytes;
    acc.total_up = acc.total_up + other.total_up;
    acc.total_down = acc.total_down + other.total_down;
    let mut rest: Vec<HostEntry> = Vec::new();
    let mut src = other.stats;
    let ghost s0 = src@;
    while src.len() > 0
        invariant
            table_wf(s0),
            s0 == src@ + rest@.reverse(),
        decreases src@.len(),
    {
        let e = src.pop().unwrap();
        rest.push(e);
        proof {
            assert(s0 =~= src@ + rest@.reverse());
        }
    }
    let ghost n = rest@.len();
    assert(rest@.reverse() =~= s0);
    while rest.len() > 0
        invariant
            table_wf(s0),
            b0.stats == table_view(s0),
            merged == merge_views(a0, b0),
            n == s0.len(),
            rest@.len() <= n,
            forall|j: int| 0 <= j < rest@.len() ==> #[trigger] rest@[j] == s0[n - 1 - j],
            acc.wf(),
            table_view(acc.stats@) == merge_maps(a0.stats, table_view(s0.take(n - rest@.len()))),
            acc.total_bytes == merged.total_bytes,
            acc.total_up == merged.total_up,
            acc.total_down == merged.total_down,
        decreases rest@.len(),
    {
        let ghost i = n - rest@.len();
        let ghost bi = table_view(s0.take(i));
        let e = rest.pop().unwrap();
        proof {
            assert(e == s0[i]);
            assert(s0.take(i + 1).drop_last() =~= s0.take(i));
            assert(s0.take(i + 1).last() == e);
            lemma_table_dom(s0.take(i), e.ip);
            assert forall|j: int| 0 <= j < s0.take(i).len() implies (#[trigger] s0.take(i)[j]).ip
                != e.ip by {
                assert(s0.take(i)[j] == s0[j]);
            }
            assert(!bi.contains_key(e.ip));
            lemma_table_index(s0, i);
            assert(s0[i].stat.wf());
        }
        match crate::stats::find_host(&acc.stats, &e.ip) {
            None => {
                proof {
                    lemma_table_dom(acc.stats@, e.ip);
                    lemma_table_push(acc.stats@, e);
                }
                acc.stats.push(e);
                proof {
                    assert forall|j: int| 0 <= j < acc.stats@.len() implies (#[trigger] acc.stats@[j]).stat.wf() by {
                        if j < acc.stats@.len() - 1 {
                        }
                    }
                    assert(table_view(acc.stats@) =~= merge_maps(a0.stats, table_view(s0.take(i + 1))));
                }
            },
            Some(j) => {
                proof {
                    lemma_table_index(acc.stats@, j as int);
                    assert(table_view(acc.stats@).contains_key(e.ip));
                    assert(merge_maps(a0.stats, bi).contains_key(e.ip));
                    assert(a0.stats.contains_key(e.ip));
                    assert(b0.stats.contains_key(e.ip));
                    assert(b0.stats[e.ip] == e.stat@);
                    assert(merged.stats == merge_maps(a0.stats, b0.stats));
                    assert(merged.stats.contains_key(e.ip));
                    assert(merged.stats[e.ip] == merge_stat(a0.stats[e.ip], e.stat@));
                }
                let s = &acc.stats[j].stat;
                let x = &e.stat;
                if s.total_pkts > u64::MAX - x.total_pkts || s.total_bytes > u64::MAX
                    - x.total_bytes || s.up_pkts > u64::MAX - x.up_pkts || s.up_bytes > u64::MAX
                    - x.up_bytes || s.down_pkts > u64::MAX - x.down_pkts || s.down_bytes
                    > u64::MAX - x.down_bytes {
                    proof {
                        assert(merged.stats.contains_key(e.ip));
                        assert(!merged.stats[e.ip].fits());
                    }
                    return Err(CounterOverflow);
                }
                let ghost t0 = acc.stats@;
                let HostEntry { ip, stat } = e;
                let st = &mut acc.stats[j].stat;
                st.total_pkts = st.total_pkts + stat.total_pkts;
                st.total_bytes = st.total_bytes + stat.total_bytes;
                st.up_pkts = st.up_pkts + stat.up_pkts;
                st.up_bytes = st.up_bytes + stat.up_bytes;
                st.down_pkts = st.down_pkts + stat.down_pkts;
                st.down_bytes = st.down_bytes + stat.down_bytes;
                union_domains(&mut st.domains, stat.domains);
                proof {
                    lemma_table_update(t0, j as int, acc.stats@[j as int]);
                    assert(acc.stats@ =~= t0.update(j as int, acc.stats@[j as int]));
                    assert forall|q: int| 0 <= q < acc.stats@.len() implies (#[trigger] acc.stats@[q]).stat.wf() by {
                        if q != j {
                            assert(acc.stats@[q] == t0[q]);
                        }
                    }
                    assert(acc.stats@[j as int].stat@ =~= merge_stat(a0.stats[ip], s0[i].stat@));
                    assert(table_view(acc.stats@) =~= merge_maps(a0.stats, table_view(s0.take(i + 1))));
                }
            },
        }
    }
    proof {
        assert(s0.take(n as int) =~= s0);
        assert(acc@.stats =~= merged.stats);
    }
    Ok(acc)
}

} // verus!
