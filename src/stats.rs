//! Per-remote-host statistics and the table that holds them.

use vstd::prelude::*;
use crate::addr::Ipv4;
use crate::text::{split_fields, split_on, trim, trimmed};

verus! {

/// Counters and domain names accumulated for one remote host.
pub struct FlowStat {
    pub total_pkts: u64,
    pub total_bytes: u64,
    pub up_pkts: u64,
    pub up_bytes: u64,
    pub down_pkts: u64,
    pub down_bytes: u64,
    /// Distinct domain names seen with this host, in first-seen order.
    pub domains: Vec<String>,
}

pub ghost struct FlowStatView {
    pub total_pkts: int,
    pub total_bytes: int,
    pub up_pkts: int,
    pub up_bytes: int,
    pub down_pkts: int,
    pub down_bytes: int,
    pub domains: Set<Seq<char>>,
}

impl FlowStatView {
    /// Totals are the sums of the upload and download parts.
    pub open spec fn balanced(self) -> bool {
        self.total_pkts == self.up_pkts + self.down_pkts && self.total_bytes == self.up_bytes
            + self.down_bytes
    }

    /// Every counter fits in a `u64`.
    pub open spec fn fits(self) -> bool {
        0 <= self.total_pkts <= u64::MAX && 0 <= self.total_bytes <= u64::MAX && 0
            <= self.up_pkts <= u64::MAX && 0 <= self.up_bytes <= u64::MAX && 0 <= self.down_pkts
            <= u64::MAX && 0 <= self.down_bytes <= u64::MAX
    }
}

pub open spec fn zero_stat() -> FlowStatView {
    FlowStatView {
        total_pkts: 0,
        total_bytes: 0,
        up_pkts: 0,
        up_bytes: 0,
        down_pkts: 0,
        down_bytes: 0,
        domains: Set::empty(),
    }
}

pub open spec fn string_views(v: Seq<String>) -> Seq<Seq<char>> {
    v.map_values(|s: String| s@)
}

pub open spec fn distinct_views(v: Seq<String>) -> bool {
    forall|i: int, j: int| 0 <= i < j < v.len() ==> v[i]@ != v[j]@
}

impl View for FlowStat {
    type V = FlowStatView;

    open spec fn view(&self) -> FlowStatView {
        FlowStatView {
            total_pkts: self.total_pkts as int,
            total_bytes: self.total_bytes as int,
            up_pkts: self.up_pkts as int,
            up_bytes: self.up_bytes as int,
            down_pkts: self.down_pkts as int,
            down_bytes: self.down_bytes as int,
            domains: string_views(self.domains@).to_set(),
        }
    }
}

impl FlowStat {
    /// Balanced counters and no domain name twice.
    pub open spec fn wf(&self) -> bool {
        self@.balanced() && distinct_views(self.domains@)
    }

    /// A host seen for the first time: every counter zero, no domain.
    pub fn new() -> (r: FlowStat)
        ensures
            r@ == zero_stat(),
            r.wf(),
    {
        let r = FlowStat {
            total_pkts: 0,
            total_bytes: 0,
            up_pkts: 0,
            up_bytes: 0,
            down_pkts: 0,
            down_bytes: 0,
            domains: Vec::new(),
        };
        assert(string_views(r.domains@).to_set() =~= Set::empty());
        r
    }
}

impl FlowStat {
    /// A copy of these statistics.
    pub fn duplicate(&self) -> (r: FlowStat)
        ensures
            r@ == self@,
            r.domains@.len() == self.domains@.len(),
            forall|i: int| 0 <= i < self.domains@.len() ==> r.domains@[i]@ == self.domains@[i]@,
            self.wf() ==> r.wf(),
    {
        let mut domains: Vec<String> = Vec::new();
        let mut i: usize = 0;
        while i < self.domains.len()
            invariant
                0 <= i <= self.domains@.len(),
                domains@.len() == i,
                forall|j: int| 0 <= j < i ==> domains@[j]@ == self.domains@[j]@,
            decreases self.domains@.len() - i,
        {
            domains.push(self.domains[i].clone());
            i = i + 1;
        }
        let r = FlowStat {
            total_pkts: self.total_pkts,
            total_bytes: self.total_bytes,
            up_pkts: self.up_pkts,
            up_bytes: self.up_bytes,
            down_pkts: self.down_pkts,
            down_bytes: self.down_bytes,
            domains,
        };
        assert(string_views(r.domains@) =~= string_views(self.domains@));
        r
    }
}

/// The domain names that one hint column contributes: its comma-separated
/// fragments, trimmed, without the empty ones.  A column that repeats one name
/// contributes that name once; distinct names each count.
pub open spec fn domain_set_of(field: Seq<char>) -> Set<Seq<char>> {
    split_on(field, ',').map_values(|p: Seq<char>| trim(p)).to_set().remove(Seq::<char>::empty())
}

proof fn lemma_push_to_set(v: Seq<String>, s: String)
    ensures
        string_views(v.push(s)).to_set() == string_views(v).to_set().insert(s@),
{
    assert(string_views(v.push(s)) =~= string_views(v).push(s@));
    assert(string_views(v).push(s@) =~= string_views(v) + seq![s@]);
    Seq::lemma_to_set_insert_commutes(string_views(v), s@);
}

/// Adds a domain name to a list of distinct names, unless it is there already.
pub fn add_domain(domains: &mut Vec<String>, d: String)
    requires
        distinct_views(old(domains)@),
    ensures
        distinct_views(final(domains)@),
        string_views(final(domains)@).to_set() == string_views(old(domains)@).to_set().insert(d@),
{
    let mut i: usize = 0;
    while i < domains.len()
        invariant
            0 <= i <= domains.len(),
            domains@ == old(domains)@,
            distinct_views(domains@),
            forall|j: int| 0 <= j < i ==> domains@[j]@ != d@,
        decreases domains.len() - i,
    {
        if domains[i] == d {
            proof {
                assert(string_views(domains@)[i as int] == d@);
                assert(string_views(domains@).to_set().contains(d@));
                assert(string_views(domains@).to_set().insert(d@) =~= string_views(
                    domains@,
                ).to_set());
            }
            return;
        }
        i = i + 1;
    }
    proof {
        lemma_push_to_set(domains@, d);
    }
    domains.push(d);
}

/// Merges the domain names of one hint column into a host's domain set.
pub fn insert_domain_field(entry: &mut FlowStat, field: &str)
    requires
        old(entry).wf(),
    ensures
        final(entry).wf(),
        final(entry)@ == (FlowStatView {
            domains: old(entry)@.domains.union(domain_set_of(field@)),
            ..old(entry)@
        }),
{
    let parts = split_fields(field, ',');
    let ghost ps = split_on(field@, ',');
    let ghost trimmed_parts = ps.map_values(|p: Seq<char>| trim(p));
    proof {
        assert(trimmed_parts.take(0).to_set() =~= Set::empty());
        assert(old(entry)@.domains.union(
            trimmed_parts.take(0).to_set().remove(Seq::<char>::empty()),
        ) =~= old(entry)@.domains);
    }
    let mut i: usize = 0;
    while i < parts.len()
        invariant
            parts@.map_values(|f: String| f@) == ps,
            trimmed_parts == ps.map_values(|p: Seq<char>| trim(p)),
            0 <= i <= parts.len(),
            entry.wf(),
            entry@ == (FlowStatView {
                domains: old(entry)@.domains.union(
                    trimmed_parts.take(i as int).to_set().remove(Seq::<char>::empty()),
                ),
                ..old(entry)@
            }),
        decreases parts.len() - i,
    {
        let t = trimmed(&parts[i]);
        let ghost before = trimmed_parts.take(i as int).to_set().remove(Seq::<char>::empty());
        proof {
            assert(parts@[i as int]@ == ps[i as int]);
            assert(trimmed_parts.take(i + 1) =~= trimmed_parts.take(i as int).push(t@));
            assert(trimmed_parts.take(i as int).push(t@) =~= trimmed_parts.take(i as int) + seq![
                t@,
            ]);
            Seq::lemma_to_set_insert_commutes(trimmed_parts.take(i as int), t@);
        }
        if t.as_str().is_empty() {
            proof {
                assert(t@ =~= Seq::<char>::empty());
                assert(trimmed_parts.take(i + 1).to_set().remove(Seq::<char>::empty()) =~= before);
            }
        } else {
            let ghost old_entry = entry@;
            add_domain(&mut entry.domains, t);
            proof {
                assert(trimmed_parts.take(i + 1).to_set().remove(Seq::<char>::empty())
                    =~= before.insert(t@));
                assert(entry@.domains =~= old(entry)@.domains.union(
                    trimmed_parts.take(i + 1).to_set().remove(Seq::<char>::empty()),
                ));
            }
        }
        i = i + 1;
    }
    proof {
        assert(trimmed_parts.take(parts@.len() as int) =~= trimmed_parts);
    }
}

/// One remote host and what was seen of it.
pub struct HostEntry {
    pub ip: Ipv4,
    pub stat: FlowStat,
}

impl HostEntry {
    pub open spec fn entry_view(self) -> (Ipv4, FlowStatView) {
        (self.ip, self.stat@)
    }

    /// A copy of this entry.
    pub fn duplicate(&self) -> (r: HostEntry)
        ensures
            r.entry_view() == self.entry_view(),
            self.stat.wf() ==> r.stat.wf(),
    {
        HostEntry { ip: self.ip, stat: self.stat.duplicate() }
    }
}

/// The map from remote address to statistics that a list of entries stands for.
pub open spec fn table_view(s: Seq<HostEntry>) -> Map<Ipv4, FlowStatView>
    decreases s.len(),
{
    if s.len() == 0 {
        Map::empty()
    } else {
        table_view(s.drop_last()).insert(s.last().ip, s.last().stat@)
    }
}

pub open spec fn keys_distinct(s: Seq<HostEntry>) -> bool {
    forall|i: int, j: int| 0 <= i < j < s.len() ==> s[i].ip != s[j].ip
}

/// No address twice, and every entry well formed.
pub open spec fn table_wf(s: Seq<HostEntry>) -> bool {
    keys_distinct(s) && forall|i: int| 0 <= i < s.len() ==> (#[trigger] s[i]).stat.wf()
}

pub proof fn lemma_table_dom(s: Seq<HostEntry>, k: Ipv4)
    ensures
        table_view(s).contains_key(k) <==> exists|i: int| 0 <= i < s.len() && (#[trigger] s[i]).ip
            == k,
    decreases s.len(),
{
    if s.len() > 0 {
        lemma_table_dom(s.drop_last(), k);
        if table_view(s.drop_last()).contains_key(k) {
            let i = choose|i: int| 0 <= i < s.drop_last().len() && (#[trigger] s.drop_last()[i]).ip
                == k;
            assert(s[i].ip == k);
        }
        if exists|i: int| 0 <= i < s.len() && (#[trigger] s[i]).ip == k {
            let i = choose|i: int| 0 <= i < s.len() && (#[trigger] s[i]).ip == k;
            if i < s.len() - 1 {
                assert(s.drop_last()[i].ip == k);
            }
        }
    }
}

pub proof fn lemma_table_index(s: Seq<HostEntry>, i: int)
    requires
        keys_distinct(s),
        0 <= i < s.len(),
    ensures
        table_view(s).contains_key(s[i].ip),
        table_view(s)[s[i].ip] == s[i].stat@,
    decreases s.len(),
{
    if i < s.len() - 1 {
        assert(keys_distinct(s.drop_last()));
        lemma_table_index(s.drop_last(), i);
        assert(s.drop_last()[i] == s[i]);
    }
}

pub proof fn lemma_table_update(s: Seq<HostEntry>, i: int, e: HostEntry)
    requires
        keys_distinct(s),
        0 <= i < s.len(),
        e.ip == s[i].ip,
    ensures
        table_view(s.update(i, e)) == table_view(s).insert(e.ip, e.stat@),
        keys_distinct(s.update(i, e)),
    decreases s.len(),
{
    let t = s.update(i, e);
    if i == s.len() - 1 {
        assert(t.drop_last() =~= s.drop_last());
    } else {
        assert(t.drop_last() =~= s.drop_last().update(i, e));
        assert(keys_distinct(s.drop_last()));
        lemma_table_update(s.drop_last(), i, e);
        assert(s.last().ip != e.ip);
    }
    assert(table_view(t) =~= table_view(s).insert(e.ip, e.stat@));
}

pub proof fn lemma_table_push(s: Seq<HostEntry>, e: HostEntry)
    requires
        keys_distinct(s),
        !table_view(s).contains_key(e.ip),
    ensures
        keys_distinct(s.push(e)),
        table_view(s.push(e)) == table_view(s).insert(e.ip, e.stat@),
{
    assert(s.push(e).drop_last() =~= s);
    assert forall|i: int, j: int| 0 <= i < j < s.push(e).len() implies s.push(e)[i].ip != s.push(
        e,
    )[j].ip by {
        if j == s.len() {
            lemma_table_dom(s, e.ip);
            assert(s[i] == s.push(e)[i]);
        }
    }
}

/// The position of `ip` among the entries, if it is there.
pub fn find_host(entries: &Vec<HostEntry>, ip: &Ipv4) -> (r: Option<usize>)
    ensures
        match r {
            Some(i) => i < entries@.len() && entries@[i as int].ip == *ip,
            None => forall|i: int| 0 <= i < entries@.len() ==> (#[trigger] entries@[i]).ip != *ip,
        },
{
    let mut i: usize = 0;
    while i < entries.len()
        invariant
            0 <= i <= entries@.len(),
            forall|j: int| 0 <= j < i ==> (#[trigger] entries@[j]).ip != *ip,
        decreases entries.len() - i,
    {
        if entries[i].ip == *ip {
            return Some(i);
        }
        i = i + 1;
    }
    None
}

} // verus!
