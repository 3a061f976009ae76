//! The flow aggregator: one pass over the lines of one capture, attributing
//! each record to the remote end of a flow with the local host.

use vstd::prelude::*;
use crate::addr::{
    is_gateway_ip, is_gateway_spec, is_lan_ip, is_lan_spec, is_non_host_ip, is_non_host_spec,
    Ipv4,
};
use crate::record::{parse_record, record_of, FlowRecord};
use crate::stats::{
    domain_set_of, find_host, insert_domain_field, lemma_table_dom, lemma_table_index,
    lemma_table_push, lemma_table_update, table_view, table_wf, zero_stat, FlowStat,
    FlowStatView, HostEntry,
};

verus! {

/// A sum that does not fit in a `u64` counter.
#[derive(Clone, Copy, Debug, PartialEq, Eq, Structural)]
pub struct CounterOverflow;

/// What one aggregation run yields: statistics per remote host, and the bytes
/// of every attributed record in total, uploaded and downloaded.
pub struct AggregationResult {
    pub stats: Vec<HostEntry>,
    pub total_bytes: u64,
    pub total_up: u64,
    pub total_down: u64,
}

pub ghost struct AggregationView {
    pub stats: Map<Ipv4, FlowStatView>,
    pub total_bytes: int,
    pub total_up: int,
    pub total_down: int,
}

impl View for AggregationResult {
    type V = AggregationView;

    open spec fn view(&self) -> AggregationView {
        AggregationView {
            stats: table_view(self.stats@),
            total_bytes: self.total_bytes as int,
            total_up: self.total_up as int,
            total_down: self.total_down as int,
        }
    }
}

impl AggregationResult {
    pub open spec fn wf(&self) -> bool {
        table_wf(self.stats@)
    }

    /// No host and zero totals.
    pub fn new() -> (r: AggregationResult)
        ensures
            r.wf(),
            r@ == empty_aggregation(),
    {
        AggregationResult { stats: Vec::new(), total_bytes: 0, total_up: 0, total_down: 0 }
    }
}

pub open spec fn empty_aggregation() -> AggregationView {
    AggregationView { stats: Map::empty(), total_bytes: 0, total_up: 0, total_down: 0 }
}

/// Records that are not end-host traffic with the wider internet: with a
/// gateway, between two private addresses, or with an address that names no host.
pub open spec fn excluded_spec(src: Ipv4, dst: Ipv4) -> bool {
    is_gateway_spec(src) || is_gateway_spec(dst) || (is_lan_spec(src) && is_lan_spec(dst))
        || is_non_host_spec(src) || is_non_host_spec(dst)
}

pub fn is_excluded(src: &Ipv4, dst: &Ipv4) -> (r: bool)
    ensures
        r == excluded_spec(*src, *dst),
{
    is_gateway_ip(src) || is_gateway_ip(dst) || (is_lan_ip(src) && is_lan_ip(dst))
        || is_non_host_ip(src) || is_non_host_ip(dst)
}

/// The domain names that the three hint columns of a record contribute.
pub open spec fn hint_domains(hints: Seq<Seq<char>>) -> Set<Seq<char>> {
    domain_set_of(hints[0]).union(domain_set_of(hints[1])).union(domain_set_of(hints[2]))
}

/// A host's statistics after one more packet of `len` bytes in one direction.
pub open spec fn add_flow(
    s: FlowStatView,
    len: int,
    upload: bool,
    hints: Seq<Seq<char>>,
) -> FlowStatView {
    FlowStatView {
        total_pkts: s.total_pkts + 1,
        total_bytes: s.total_bytes + len,
        up_pkts: if upload {
            s.up_pkts + 1
        } else {
            s.up_pkts
        },
        up_bytes: if upload {
            s.up_bytes + len
        } else {
            s.up_bytes
        },
        down_pkts: if upload {
            s.down_pkts
        } else {
            s.down_pkts + 1
        },
        down_bytes: if upload {
            s.down_bytes
        } else {
            s.down_bytes + len
        },
        domains: s.domains.union(hint_domains(hints)),
    }
}

pub open spec fn stat_or_zero(m: Map<Ipv4, FlowStatView>, k: Ipv4) -> FlowStatView {
    if m.contains_key(k) {
        m[k]
    } else {
        zero_stat()
    }
}

/// One record attributed to `remote`, as an upload or a download.
pub open spec fn attribute(
    acc: AggregationView,
    remote: Ipv4,
    len: int,
    upload: bool,
    hints: Seq<Seq<char>>,
) -> AggregationView {
    AggregationView {
        stats: acc.stats.insert(remote, add_flow(stat_or_zero(acc.stats, remote), len, upload, hints)),
        total_bytes: acc.total_bytes + len,
        total_up: if upload {
            acc.total_up + len
        } else {
            acc.total_up
        },
        total_down: if upload {
            acc.total_down
        } else {
            acc.total_down + len
        },
    }
}

/// The effect of one line on the running aggregation.
pub open spec fn absorb_line(acc: AggregationView, line: Seq<char>, local: Option<Ipv4>) -> AggregationView {
    match record_of(line) {
        Err(_) => acc,
        Ok(r) => {
            if excluded_spec(r.src, r.dst) {
                acc
            } else if local == Some(r.src) {
                attribute(acc, r.dst, r.length as int, true, r.hints)
            } else if local == Some(r.dst) {
                attribute(acc, r.src, r.length as int, false, r.hints)
            } else {
                acc
            }
        },
    }
}

/// The aggregation of `lines`, in order, around the local host `local`.
pub open spec fn aggregate_spec(lines: Seq<Seq<char>>, local: Option<Ipv4>) -> AggregationView
    decreases lines.len(),
{
    if lines.len() == 0 {
        empty_aggregation()
    } else {
        absorb_line(aggregate_spec(lines.drop_last(), local), lines.last(), local)
    }
}

pub open spec fn line_views(lines: Seq<String>) -> Seq<Seq<char>> {
    lines.map_values(|l: String| l@)
}

/// Grand totals that add up, and per-host counters that are balanced and
/// bounded by the grand totals (bytes) and by `n` (packets).
pub open spec fn bounded(v: AggregationView, n: int) -> bool {
    &&& v.total_up + v.total_down == v.total_bytes
    &&& 0 <= v.total_up
    &&& 0 <= v.total_down
    &&& forall|k: Ipv4| #[trigger]
        v.stats.contains_key(k) ==> {
            let s = v.stats[k];
            &&& s.balanced()
            &&& 0 <= s.up_pkts
            &&& 0 <= s.down_pkts
            &&& s.total_pkts <= n
            &&& 0 <= s.up_bytes
            &&& 0 <= s.down_bytes
            &&& s.total_bytes <= v.total_bytes
        }
}

/// A record with a gateway at either end changes nothing, whichever host is local.
pub proof fn lemma_gateway_record_ignored(acc: AggregationView, line: Seq<char>, local: Option<Ipv4>)
    requires
        record_of(line) is Ok,
        is_gateway_spec(record_of(line)->Ok_0.src) || is_gateway_spec(record_of(line)->Ok_0.dst),
    ensures
        absorb_line(acc, line, local) == acc,
{
}

/// Every host's counters are balanced and bounded at every point of a run.
pub proof fn lemma_aggregate_bounded(lines: Seq<Seq<char>>, local: Option<Ipv4>)
    ensures
        bounded(aggregate_spec(lines, local), lines.len() as int),
    decreases lines.len(),
{
    if lines.len() > 0 {
        lemma_aggregate_bounded(lines.drop_last(), local);
    }
}

/// The grand total never shrinks as lines are added.
pub proof fn lemma_total_grows(lines: Seq<Seq<char>>, i: int, local: Option<Ipv4>)
    requires
        0 <= i <= lines.len(),
    ensures
        aggregate_spec(lines.take(i), local).total_bytes <= aggregate_spec(lines, local).total_bytes,
    decreases lines.len() - i,
{
    if i < lines.len() {
        lemma_total_grows(lines, i + 1, local);
        assert(lines.take(i + 1).drop_last() =~= lines.take(i));
    } else {
        assert(lines.take(i) =~= lines);
    }
}

/// Adds one packet of `len` bytes to a host's statistics, with its hints.
fn add_flow_to(stat: &mut FlowStat, len: u64, upload: bool, rec: &FlowRecord)
    requires
        old(stat).wf(),
        old(stat).total_pkts < u64::MAX,
        old(stat).total_bytes + len <= u64::MAX,
    ensures
        final(stat).wf(),
        final(stat)@ == add_flow(old(stat)@, len as int, upload, rec@.hints),
{
    stat.total_pkts = stat.total_pkts + 1;
    stat.total_bytes = stat.total_bytes + len;
    if upload {
        stat.up_pkts = stat.up_pkts + 1;
        stat.up_bytes = stat.up_bytes + len;
    } else {
        stat.down_pkts = stat.down_pkts + 1;
        stat.down_bytes = stat.down_bytes + len;
    }
    insert_domain_field(stat, rec.dns_name.as_str());
    insert_domain_field(stat, rec.http_host.as_str());
    insert_domain_field(stat, rec.tls_sni.as_str());
    assert(final(stat)@.domains =~= old(stat)@.domains.union(hint_domains(rec@.hints)));
}

/// Attributes one record to `remote` in the running result.
fn record_flow(
    acc: &mut AggregationResult,
    remote: Ipv4,
    upload: bool,
    rec: &FlowRecord,
    Ghost(n): Ghost<int>,
)
    requires
        old(acc).wf(),
        bounded(old(acc)@, n),
        n < u64::MAX,
        old(acc).total_bytes + rec.length <= u64::MAX,
    ensures
        final(acc).wf(),
        final(acc)@ == attribute(old(acc)@, remote, rec.length as int, upload, rec@.hints),
{
    let len = rec.length;
    let ghost v0 = acc@;
    let j: usize = match find_host(&acc.stats, &remote) {
        Some(j) => j,
        None => {
            proof {
                lemma_table_dom(acc.stats@, remote);
            }
            let e = HostEntry { ip: remote, stat: FlowStat::new() };
            proof {
                lemma_table_push(acc.stats@, e);
            }
            acc.stats.push(e);
            acc.stats.len() - 1
        },
    };
    proof {
        lemma_table_index(acc.stats@, j as int);
        assert(table_view(acc.stats@) =~= v0.stats.insert(remote, stat_or_zero(v0.stats, remote)));
        assert(acc.stats@[j as int].stat.wf());
    }
    let ghost s0 = acc.stats@;
    add_flow_to(&mut acc.stats[j].stat, len, upload, rec);
    proof {
        lemma_table_update(s0, j as int, acc.stats@[j as int]);
        assert(acc.stats@ =~= s0.update(j as int, acc.stats@[j as int]));
        assert forall|i: int| 0 <= i < acc.stats@.len() implies (#[trigger] acc.stats@[i]).stat.wf() by {
            if i != j {
                assert(acc.stats@[i] == s0[i]);
            }
        }
    }
    acc.total_bytes = acc.total_bytes + len;
    if upload {
        acc.total_up = acc.total_up + len;
    } else {
        acc.total_down = acc.total_down + len;
    }
    assert(acc@.stats =~= attribute(v0, remote, len as int, upload, rec@.hints).stats);
}

/// Aggregates `lines` around `local`; with no local host nothing is attributed.
fn aggregate_around(lines: &[String], local: Option<Ipv4>) -> (r: Result<
    AggregationResult,
    CounterOverflow,
>)
    ensures
        match r {
            Ok(a) => a.wf() && a@ == aggregate_spec(line_views(lines@), local),
            Err(_) => aggregate_spec(line_views(lines@), local).total_bytes > u64::MAX,
        },
{
    let ghost ls = line_views(lines@);
    let mut acc = AggregationResult::new();
    let mut i: usize = 0;
    while i < lines.len()
        invariant
            ls == line_views(lines@),
            0 <= i <= lines@.len(),
            acc.wf(),
            acc@ == aggregate_spec(ls.take(i as int), local),
        decreases lines@.len() - i,
    {
        proof {
            assert(ls.take(i as int + 1).drop_last() =~= ls.take(i as int));
            assert(ls.take(i as int + 1).last() == lines@[i as int]@);
            lemma_aggregate_bounded(ls.take(i as int), local);
        }
        match parse_record(lines[i].as_str()) {
            Err(_) => {},
            Ok(rec) => {
                if !is_excluded(&rec.src, &rec.dst) {
                    let upload = local == Some(rec.src);
                    if upload || local == Some(rec.dst) {
                        if acc.total_bytes > u64::MAX - rec.length {
                            proof {
                                lemma_total_grows(ls, i + 1, local);
                            }
                            return Err(CounterOverflow);
                        }
                        let remote = if upload {
                            rec.dst
                        } else {
                            rec.src
                        };
                        record_flow(&mut acc, remote, upload, &rec, Ghost(i as int));
                    }
                }
            },
        }
        i = i + 1;
    }
    proof {
        assert(ls.take(lines@.len() as int) =~= ls);
    }
    Ok(acc)
}

/// Aggregates the flow lines of one capture around the local host `local`.
/// Fails only where the grand total of attributed bytes exceeds `u64::MAX`.
pub fn aggregate_flows(lines: &[String], local: Ipv4) -> (r: Result<
    AggregationResult,
    CounterOverflow,
>)
    ensures
        match r {
            Ok(a) => a.wf() && a@ == aggregate_spec(line_views(lines@), Some(local)),
            Err(_) => aggregate_spec(line_views(lines@), Some(local)).total_bytes > u64::MAX,
        },
{
    aggregate_around(lines, Some(local))
}

} // verus!
