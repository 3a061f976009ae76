//! What the report writer needs from the library: byte sizes in human units,
//! hosts ordered by upload volume, and location strings.

use vstd::prelude::*;
use crate::addr::{decimal_text, digit_char, format_ipv4, ipv4_text, push_decimal};
use crate::stats::{string_views, FlowStatView, HostEntry};
use crate::text::{lemma_lex_total, lex_le, push_char, same_text, str_le};

verus! {

broadcast use vstd::string::group_string_axioms;

/// `n / d` rounded to the nearest integer, a half going to the even neighbour.
pub open spec fn round_half_even(n: nat, d: nat) -> nat
    recommends
        d > 0,
{
    let q = n / d;
    let r = n % d;
    if 2 * r > d || (2 * r == d && q % 2 == 1) {
        q + 1
    } else {
        q
    }
}

/// A number of hundredths written with two decimals (`1234` is `12.34`).
pub open spec fn fixed2_text(h: nat) -> Seq<char> {
    decimal_text(h / 100) + seq!['.', digit_char((h % 100) / 10), digit_char(h % 10)]
}

pub const KIB: u64 = 1024;

pub const MIB: u64 = 1048576;

/// A byte count in bytes, kibibytes or mebibytes: under 1024 as an integer
/// with ` B`, under 1 MiB as `bytes / 1024` with two decimals and ` KB`, else
/// as `bytes / 1048576` with two decimals and ` MB`.
pub open spec fn format_bytes_spec(bytes: nat) -> Seq<char> {
    if bytes < KIB {
        decimal_text(bytes) + seq![' ', 'B']
    } else if bytes < MIB {
        fixed2_text(round_half_even(bytes * 100, KIB as nat)) + seq![' ', 'K', 'B']
    } else {
        fixed2_text(round_half_even(bytes * 100, MIB as nat)) + seq![' ', 'M', 'B']
    }
}

fn round_half_even_u128(n: u128, d: u128) -> (r: u128)
    requires
        d > 0,
        n / d < u128::MAX,
    ensures
        r == round_half_even(n as nat, d as nat),
{
    let q = n / d;
    let r = n % d;
    if r > d - r || (r == d - r && q % 2 == 1) {
        q + 1
    } else {
        q
    }
}

fn push_digit(s: &mut String, d: u64)
    requires
        d < 10,
    ensures
        final(s)@ == old(s)@.push(digit_char(d as nat)),
{
    let ghost before = s@;
    push_decimal(s, d);
    assert(decimal_text(d as nat) == seq![digit_char(d as nat)]);
    assert(s@ =~= before.push(digit_char(d as nat)));
}

fn push_fixed2(s: &mut String, h: u64)
    ensures
        final(s)@ == old(s)@ + fixed2_text(h as nat),
{
    let ghost before = s@;
    push_decimal(s, h / 100);
    push_char(s, '.');
    push_digit(s, (h % 100) / 10);
    push_digit(s, h % 10);
    assert(s@ =~= before + fixed2_text(h as nat));
}

/// Writes a byte count in human units.
pub fn format_bytes(bytes: u64) -> (r: String)
    ensures
        r@ == format_bytes_spec(bytes as nat),
{
    let mut s = String::new();
    if bytes < KIB {
        push_decimal(&mut s, bytes);
        push_char(&mut s, ' ');
        push_char(&mut s, 'B');
        assert(s@ =~= format_bytes_spec(bytes as nat));
    } else {
        let unit: u128 = if bytes < MIB {
            KIB as u128
        } else {
            MIB as u128
        };
        let n: u128 = bytes as u128 * 100;
        assert(n / unit <= n / 1024) by (nonlinear_arith)
            requires
                unit >= 1024,
                n >= 0,
        ;
        let h = round_half_even_u128(n, unit);
        assert(h <= u64::MAX);
        push_fixed2(&mut s, h as u64);
        push_char(&mut s, ' ');
        if bytes < MIB {
            push_char(&mut s, 'K');
        } else {
            push_char(&mut s, 'M');
        }
        push_char(&mut s, 'B');
        assert(s@ =~= format_bytes_spec(bytes as nat));
    }
    s
}

pub open spec fn entry_views(s: Seq<HostEntry>) -> Seq<(crate::addr::Ipv4, FlowStatView)> {
    s.map_values(|e: HostEntry| e.entry_view())
}

/// Upload bytes never grow along the sequence.
pub open spec fn sorted_by_up_bytes(s: Seq<HostEntry>) -> bool {
    forall|i: int, j: int| 0 <= i < j < s.len() ==> s[i].stat.up_bytes >= s[j].stat.up_bytes
}

/// Copies of the entries ordered by upload bytes, largest first; entries with
/// equal upload bytes keep their order.
pub fn sort_stats_by_up_bytes(stats: &Vec<HostEntry>) -> (r: Vec<HostEntry>)
    ensures
        entry_views(r@).to_multiset() == entry_views(stats@).to_multiset(),
        sorted_by_up_bytes(r@),
        (forall|i: int| 0 <= i < stats@.len() ==> (#[trigger] stats@[i]).stat.wf()) ==> forall|
            i: int,
        | 0 <= i < r@.len() ==> (#[trigger] r@[i]).stat.wf(),
{
    let ghost all_wf = forall|i: int| 0 <= i < stats@.len() ==> (#[trigger] stats@[i]).stat.wf();
    let mut r: Vec<HostEntry> = Vec::new();
    proof {
        assert(entry_views(r@) =~= entry_views(stats@.take(0)));
    }
    let mut i: usize = 0;
    while i < stats.len()
        invariant
            0 <= i <= stats@.len(),
            entry_views(r@).to_multiset() == entry_views(stats@.take(i as int)).to_multiset(),
            sorted_by_up_bytes(r@),
            all_wf == forall|i: int| 0 <= i < stats@.len() ==> (#[trigger] stats@[i]).stat.wf(),
            all_wf ==> forall|k: int| 0 <= k < r@.len() ==> (#[trigger] r@[k]).stat.wf(),
        decreases stats@.len() - i,
    {
        let e = stats[i].duplicate();
        let ub = e.stat.up_bytes;
        let mut p: usize = 0;
        while p < r.len() && r[p].stat.up_bytes >= ub
            invariant
                0 <= p <= r@.len(),
                forall|k: int| 0 <= k < p ==> (#[trigger] r@[k]).stat.up_bytes >= ub,
            decreases r@.len() - p,
        {
            p = p + 1;
        }
        let ghost r0 = r@;
        r.insert(p, e);
        proof {
            assert(entry_views(r@) =~= entry_views(r0).insert(p as int, e.entry_view()));
            assert(stats@.take(i + 1) =~= stats@.take(i as int).push(stats@[i as int]));
            assert(entry_views(stats@.take(i + 1)) =~= entry_views(stats@.take(i as int)).push(
                stats@[i as int].entry_view(),
            ));
            vstd::seq_lib::to_multiset_insert(entry_views(r0), p as int, e.entry_view());
            vstd::seq_lib::to_multiset_build(entry_views(stats@.take(i as int)), e.entry_view());
            assert forall|a: int, b: int| 0 <= a < b < r@.len() implies r@[a].stat.up_bytes
                >= r@[b].stat.up_bytes by {
                if b < p {
                } else if b == p {
                } else if a < p {
                    assert(r@[b] == r0[b - 1]);
                    if p < r0.len() {
                        assert(r0[p as int].stat.up_bytes < ub);
                    }
                } else if a == p {
                    assert(r@[b] == r0[b - 1]);
                    assert(r0[p as int].stat.up_bytes < ub);
                } else {
                    assert(r@[a] == r0[a - 1]);
                    assert(r@[b] == r0[b - 1]);
                }
            }
            if all_wf {
                assert(stats@[i as int].stat.wf());
                assert forall|k: int| 0 <= k < r@.len() implies (#[trigger] r@[k]).stat.wf() by {
                    if k < p {
                        assert(r@[k] == r0[k]);
                    } else if k > p {
                        assert(r@[k] == r0[k - 1]);
                    }
                }
            }
        }
        i = i + 1;
    }
    proof {
        assert(stats@.take(stats@.len() as int) =~= stats@);
    }
    r
}

/// Each name sorts before or equals the next.
pub open spec fn lex_sorted(s: Seq<Seq<char>>) -> bool {
    forall|i: int| 0 <= i < s.len() - 1 ==> lex_le(#[trigger] s[i], s[i + 1])
}

/// The names in lexicographic order.
pub fn sort_domains(domains: &Vec<String>) -> (r: Vec<String>)
    ensures
        string_views(r@).to_multiset() == string_views(domains@).to_multiset(),
        lex_sorted(string_views(r@)),
{
    let mut r: Vec<String> = Vec::new();
    proof {
        assert(string_views(r@) =~= string_views(domains@.take(0)));
    }
    let mut i: usize = 0;
    while i < domains.len()
        invariant
            0 <= i <= domains@.len(),
            string_views(r@).to_multiset() == string_views(domains@.take(i as int)).to_multiset(),
            lex_sorted(string_views(r@)),
        decreases domains@.len() - i,
    {
        let x = domains[i].clone();
        let mut p: usize = 0;
        while p < r.len() && str_le(r[p].as_str(), x.as_str())
            invariant
                0 <= p <= r@.len(),
                p > 0 ==> lex_le(r@[p - 1]@, x@),
            decreases r@.len() - p,
        {
            p = p + 1;
        }
        let ghost r0 = r@;
        proof {
            if p < r0.len() {
                lemma_lex_total(r0[p as int]@, x@, 0);
            }
        }
        r.insert(p, x);
        proof {
            let v0 = string_views(r0);
            let v = string_views(r@);
            assert(v =~= v0.insert(p as int, x@));
            assert(domains@.take(i + 1) =~= domains@.take(i as int).push(domains@[i as int]));
            assert(string_views(domains@.take(i + 1)) =~= string_views(domains@.take(i as int)).push(
                x@,
            ));
            vstd::seq_lib::to_multiset_insert(v0, p as int, x@);
            vstd::seq_lib::to_multiset_build(string_views(domains@.take(i as int)), x@);
            assert forall|a: int| 0 <= a < v.len() - 1 implies lex_le(#[trigger] v[a], v[a + 1]) by {
                if a + 1 < p {
                    assert(v[a] == v0[a] && v[a + 1] == v0[a + 1]);
                } else if a + 1 == p {
                    assert(v[a] == v0[a]);
                } else if a == p {
                    assert(v[a + 1] == v0[a]);
                } else {
                    assert(v[a] == v0[a - 1] && v[a + 1] == v0[a]);
                }
            }
        }
        i = i + 1;
    }
    proof {
        assert(domains@.take(domains@.len() as int) =~= domains@);
    }
    r
}

/// The location paired with `ip`, the first such pair from position `i` on.
pub open spec fn location_from(locations: Seq<(String, String)>, ip: Seq<char>, i: int) -> Option<
    Seq<char>,
>
    decreases locations.len() - i,
{
    if i < 0 || i >= locations.len() {
        None
    } else if locations[i].0@ == ip {
        Some(locations[i].1@)
    } else {
        location_from(locations, ip, i + 1)
    }
}

/// The location column of a host: its looked-up location, else `未知` (unknown).
pub open spec fn location_column(locations: Seq<(String, String)>, ip: Seq<char>) -> Seq<char> {
    match location_from(locations, ip, 0) {
        Some(l) => l,
        None => "未知"@,
    }
}

/// The location of `ip`, or `未知` (unknown) where none was found.
pub fn lookup_location(locations: &Vec<(String, String)>, ip: &str) -> (r: String)
    ensures
        r@ == location_column(locations@, ip@),
{
    let mut i: usize = 0;
    while i < locations.len()
        invariant
            0 <= i <= locations@.len(),
            location_from(locations@, ip@, 0) == location_from(locations@, ip@, i as int),
        decreases locations@.len() - i,
    {
        if same_text(locations[i].0.as_str(), ip) {
            let r = locations[i].1.clone();
            assert(r@ == locations@[i as int].1@);
            return r;
        }
        i = i + 1;
    }
    "未知".to_owned()
}

/// The first ten columns of a host's row: address, then packets, bytes and
/// size in human units for the total, upload and download.
pub open spec fn counter_columns(ip: Seq<char>, s: FlowStatView) -> Seq<Seq<char>> {
    seq![
        ip,
        decimal_text(s.total_pkts as nat),
        decimal_text(s.total_bytes as nat),
        format_bytes_spec(s.total_bytes as nat),
        decimal_text(s.up_pkts as nat),
        decimal_text(s.up_bytes as nat),
        format_bytes_spec(s.up_bytes as nat),
        decimal_text(s.down_pkts as nat),
        decimal_text(s.down_bytes as nat),
        format_bytes_spec(s.down_bytes as nat),
    ]
}

/// The header row: ten counter columns, one column per domain name, location.
pub open spec fn header_spec(max_domains: nat) -> Seq<Seq<char>> {
    seq![
        "IP"@,
        "总数据包"@,
        "总字节数"@,
        "总数据量"@,
        "上行数据包"@,
        "上行字节数"@,
        "上行数据量"@,
        "下行数据包"@,
        "下行字节数"@,
        "下行数据量"@,
    ] + Seq::new(max_domains, |i: int| "业务说明"@) + seq!["归属地"@]
}

/// A host's row: counters, its domain names sorted, empty cells up to
/// `max_domains`, then its location.
pub open spec fn record_row_ok(
    row: Seq<Seq<char>>,
    e: HostEntry,
    locations: Seq<(String, String)>,
    max_domains: nat,
) -> bool {
    let n = e.stat.domains@.len() as int;
    &&& n <= max_domains
    &&& row.len() == 11 + max_domains
    &&& row.take(10) == counter_columns(ipv4_text(e.ip), e.stat@)
    &&& row.subrange(10, 10 + n).to_multiset() == string_views(e.stat.domains@).to_multiset()
    &&& lex_sorted(row.subrange(10, 10 + n))
    &&& forall|i: int| 10 + n <= i < 10 + max_domains ==> #[trigger] row[i] == Seq::<char>::empty()
    &&& row[10 + max_domains as int] == location_column(locations, ipv4_text(e.ip))
}

/// The closing row: grand totals in human units, the other cells empty.
pub open spec fn summary_spec(total: nat, up: nat, down: nat, max_domains: nat) -> Seq<Seq<char>> {
    seq![
        "总计"@,
        Seq::<char>::empty(),
        format_bytes_spec(total),
        Seq::<char>::empty(),
        format_bytes_spec(up),
        Seq::<char>::empty(),
        format_bytes_spec(down),
    ] + Seq::new(max_domains + 4, |i: int| Seq::<char>::empty())
}

fn push_text(row: &mut Vec<String>, text: &str)
    ensures
        string_views(final(row)@) == string_views(old(row)@).push(text@),
{
    let t = text.to_owned();
    row.push(t);
    assert(string_views(row@) =~= string_views(old(row)@).push(text@));
}

fn push_string(row: &mut Vec<String>, t: String)
    ensures
        string_views(final(row)@) == string_views(old(row)@).push(t@),
{
    let ghost tv = t@;
    row.push(t);
    assert(string_views(row@) =~= string_views(old(row)@).push(tv));
}

fn push_cells(row: &mut Vec<String>, text: &str, count: usize)
    ensures
        string_views(final(row)@) == string_views(old(row)@) + Seq::new(
            count as nat,
            |i: int| text@,
        ),
{
    let mut k: usize = 0;
    while k < count
        invariant
            0 <= k <= count,
            string_views(row@) == string_views(old(row)@) + Seq::new(k as nat, |i: int| text@),
        decreases count - k,
    {
        let t = text.to_owned();
        let ghost before = row@;
        row.push(t);
        assert(row@ == before.push(t));
        assert(string_views(row@) =~= string_views(before).push(text@));
        k = k + 1;
        assert(string_views(row@) =~= string_views(old(row)@) + Seq::new(k as nat, |i: int| text@));
    }
}

/// The header row of the report.
pub fn csv_header(max_domains: usize) -> (r: Vec<String>)
    ensures
        string_views(r@) == header_spec(max_domains as nat),
{
    let mut r: Vec<String> = Vec::new();
    push_text(&mut r, "IP");
    push_text(&mut r, "总数据包");
    push_text(&mut r, "总字节数");
    push_text(&mut r, "总数据量");
    push_text(&mut r, "上行数据包");
    push_text(&mut r, "上行字节数");
    push_text(&mut r, "上行数据量");
    push_text(&mut r, "下行数据包");
    push_text(&mut r, "下行字节数");
    push_text(&mut r, "下行数据量");
    push_cells(&mut r, "业务说明", max_domains);
    push_text(&mut r, "归属地");
    assert(string_views(r@) =~= header_spec(max_domains as nat));
    r
}

fn decimal_string(n: u64) -> (r: String)
    ensures
        r@ == decimal_text(n as nat),
{
    let mut s = String::new();
    push_decimal(&mut s, n);
    assert(s@ =~= decimal_text(n as nat));
    s
}

/// One host's row of the report.
pub fn csv_record(entry: &HostEntry, locations: &Vec<(String, String)>, max_domains: usize) -> (r:
    Vec<String>)
    requires
        entry.stat.domains@.len() <= max_domains,
    ensures
        record_row_ok(string_views(r@), *entry, locations@, max_domains as nat),
{
    let ip = format_ipv4(&entry.ip);
    let s = &entry.stat;
    let mut r: Vec<String> = Vec::new();
    push_text(&mut r, ip.as_str());
    push_string(&mut r, decimal_string(s.total_pkts));
    push_string(&mut r, decimal_string(s.total_bytes));
    push_string(&mut r, format_bytes(s.total_bytes));
    push_string(&mut r, decimal_string(s.up_pkts));
    push_string(&mut r, decimal_string(s.up_bytes));
    push_string(&mut r, format_bytes(s.up_bytes));
    push_string(&mut r, decimal_string(s.down_pkts));
    push_string(&mut r, decimal_string(s.down_bytes));
    push_string(&mut r, format_bytes(s.down_bytes));
    let ghost counters = string_views(r@);
    assert(counters =~= counter_columns(ipv4_text(entry.ip), entry.stat@));
    let sorted = sort_domains(&s.domains);
    proof {
        vstd::seq_lib::to_multiset_len(string_views(sorted@));
        vstd::seq_lib::to_multiset_len(string_views(entry.stat.domains@));
        assert(string_views(sorted@).len() == sorted@.len());
    }
    let mut i: usize = 0;
    while i < sorted.len()
        invariant
            0 <= i <= sorted@.len(),
            string_views(r@) == counters + string_views(sorted@).take(i as int),
        decreases sorted@.len() - i,
    {
        let d = sorted[i].clone();
        assert(d@ == string_views(sorted@)[i as int]);
        push_string(&mut r, d);
        assert(string_views(sorted@).take(i + 1) =~= string_views(sorted@).take(i as int).push(
            d@,
        ));
        i = i + 1;
        assert(string_views(r@) =~= counters + string_views(sorted@).take(i as int));
    }
    assert(string_views(sorted@).take(sorted@.len() as int) =~= string_views(sorted@));
    let ghost with_domains = string_views(r@);
    push_cells(&mut r, "", max_domains - sorted.len());
    push_string(&mut r, lookup_location(locations, ip.as_str()));
    proof {
        let rv = string_views(r@);
        let n = entry.stat.domains@.len() as int;
        assert(rv.take(10) =~= counters);
        assert(rv.subrange(10, 10 + n) =~= string_views(sorted@));
        assert forall|i: int| 10 + n <= i < 10 + max_domains implies #[trigger] rv[i]
            == Seq::<char>::empty() by {
            reveal_strlit("");
            assert(rv[i] == Seq::new((max_domains - n) as nat, |i: int| ""@)[i - 10 - n]);
            assert(""@ =~= Seq::<char>::empty());
        }
    }
    r
}

/// The closing row of the report.
pub fn csv_summary(total: u64, up: u64, down: u64, max_domains: usize) -> (r: Vec<String>)
    ensures
        string_views(r@) == summary_spec(total as nat, up as nat, down as nat, max_domains as nat),
{
    let mut r: Vec<String> = Vec::new();
    push_text(&mut r, "总计");
    push_string(&mut r, String::new());
    push_string(&mut r, format_bytes(total));
    push_string(&mut r, String::new());
    push_string(&mut r, format_bytes(up));
    push_string(&mut r, String::new());
    push_string(&mut r, format_bytes(down));
    let ghost first = string_views(r@);
    push_cells(&mut r, "", max_domains);
    push_cells(&mut r, "", 4);
    proof {
        reveal_strlit("");
        assert(""@ =~= Seq::<char>::empty());
        assert(Seq::new(max_domains as nat, |i: int| ""@) + Seq::new(4, |i: int| ""@) =~= Seq::new(
            (max_domains + 4) as nat,
            |i: int| Seq::<char>::empty(),
        ));
        assert(first =~= seq![
            "总计"@,
            Seq::<char>::empty(),
            format_bytes_spec(total as nat),
            Seq::<char>::empty(),
            format_bytes_spec(up as nat),
            Seq::<char>::empty(),
            format_bytes_spec(down as nat),
        ]);
        assert(string_views(r@) =~= summary_spec(
            total as nat,
            up as nat,
            down as nat,
            max_domains as nat,
        ));
    }
    r
}

/// The largest number of domain names of any entry (0 for none).
pub open spec fn max_domain_count(s: Seq<HostEntry>) -> nat
    decreases s.len(),
{
    if s.len() == 0 {
        0
    } else {
        let m = max_domain_count(s.drop_last());
        if s.last().stat.domains@.len() > m {
            s.last().stat.domains@.len()
        } else {
            m
        }
    }
}

/// The report's rows for `entries`, in their order: the header, one row per
/// host, and the totals row.  The table is as wide as the largest domain set.
pub fn report_rows(
    entries: &Vec<HostEntry>,
    locations: &Vec<(String, String)>,
    total: u64,
    up: u64,
    down: u64,
) -> (r: Vec<Vec<String>>)
    ensures
        r@.len() == entries@.len() + 2,
        string_views(r@[0]@) == header_spec(max_domain_count(entries@)),
        forall|i: int|
            0 <= i < entries@.len() ==> record_row_ok(
                string_views((#[trigger] r@[i + 1])@),
                entries@[i],
                locations@,
                max_domain_count(entries@),
            ),
        string_views(r@.last()@) == summary_spec(
            total as nat,
            up as nat,
            down as nat,
            max_domain_count(entries@),
        ),
{
    let mut m: usize = 0;
    let mut i: usize = 0;
    while i < entries.len()
        invariant
            0 <= i <= entries@.len(),
            m == max_domain_count(entries@.take(i as int)),
            forall|j: int| 0 <= j < i ==> (#[trigger] entries@[j]).stat.domains@.len() <= m,
        decreases entries@.len() - i,
    {
        proof {
            assert(entries@.take(i + 1).drop_last() =~= entries@.take(i as int));
        }
        if entries[i].stat.domains.len() > m {
            m = entries[i].stat.domains.len();
        }
        i = i + 1;
    }
    proof {
        assert(entries@.take(entries@.len() as int) =~= entries@);
    }
    let mut rows: Vec<Vec<String>> = Vec::new();
    rows.push(csv_header(m));
    let mut k: usize = 0;
    while k < entries.len()
        invariant
            0 <= k <= entries@.len(),
            m == max_domain_count(entries@),
            forall|j: int| 0 <= j < entries@.len() ==> (#[trigger] entries@[j]).stat.domains@.len() <= m,
            rows@.len() == k + 1,
            string_views(rows@[0]@) == header_spec(m as nat),
            forall|j: int|
                0 <= j < k ==> record_row_ok(
                    string_views((#[trigger] rows@[j + 1])@),
                    entries@[j],
                    locations@,
                    m as nat,
                ),
        decreases entries@.len() - k,
    {
        let row = csv_record(&entries[k], locations, m);
        let ghost rows0 = rows@;
        rows.push(row);
        proof {
            assert forall|j: int| 0 <= j < k + 1 implies record_row_ok(
                string_views((#[trigger] rows@[j + 1])@),
                entries@[j],
                locations@,
                m as nat,
            ) by {
                if j < k {
                    assert(rows@[j + 1] == rows0[j + 1]);
                }
            }
        }
        k = k + 1;
    }
    rows.push(csv_summary(total, up, down, m));
    rows
}

} // verus!
