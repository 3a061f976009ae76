use pcapracer::addr::{format_ipv4, parse_ipv4, Ipv4};
use pcapracer::aggregate::{aggregate_flows, AggregationResult, CounterOverflow};
use pcapracer::filter::post_filter;
use pcapracer::local::{find_local_host, find_local_ip, LocalHostError, LocalHostStrategy};
use pcapracer::merge::merge_results;
use pcapracer::pipeline::{aggregate_with_local_ip, analyze_lines, merge_all, AnalysisError};
use pcapracer::stats::{insert_domain_field, FlowStat};

fn lines(v: &[&str]) -> Vec<String> {
    v.iter().map(|s| s.to_string()).collect()
}

fn ip(s: &str) -> Ipv4 {
    parse_ipv4(s).unwrap()
}

fn stat_of<'a>(r: &'a AggregationResult, addr: &str) -> Option<&'a FlowStat> {
    r.stats.iter().find(|e| format_ipv4(&e.ip) == addr).map(|e| &e.stat)
}

fn sorted_domains(s: &FlowStat) -> Vec<String> {
    let mut d = s.domains.clone();
    d.sort();
    d
}

fn sorted_keys(r: &AggregationResult) -> Vec<String> {
    let mut k: Vec<String> = r.stats.iter().map(|e| format_ipv4(&e.ip)).collect();
    k.sort();
    k
}

fn repeat(line: &str, n: usize) -> Vec<String> {
    (0..n).map(|_| line.to_string()).collect()
}

#[test]
fn domain_field_repeated_name_counts_once() {
    let mut s = FlowStat::new();
    insert_domain_field(&mut s, "a,a,a");
    assert_eq!(sorted_domains(&s), vec!["a".to_string()]);
}

#[test]
fn domain_field_distinct_names_each_count() {
    let mut s = FlowStat::new();
    insert_domain_field(&mut s, "a,b,a");
    assert_eq!(sorted_domains(&s), vec!["a".to_string(), "b".to_string()]);
}

#[test]
fn domain_field_empty_contributes_nothing() {
    let mut s = FlowStat::new();
    insert_domain_field(&mut s, "");
    assert!(s.domains.is_empty());
    insert_domain_field(&mut s, " , ,");
    assert!(s.domains.is_empty());
}

#[test]
fn domain_field_trims_fragments() {
    let mut s = FlowStat::new();
    insert_domain_field(&mut s, " x.com , y.com,x.com ");
    assert_eq!(sorted_domains(&s), vec!["x.com".to_string(), "y.com".to_string()]);
    assert_eq!(s.total_pkts, 0);
}

#[test]
fn local_host_single_candidate() {
    let l = lines(&[
        "192.168.1.5\t8.8.8.8\t100\t\t\t",
        "8.8.4.4\t192.168.1.5\t100\t\t\t",
    ]);
    assert_eq!(find_local_ip(&l), Ok("192.168.1.5".to_string()));
    assert_eq!(find_local_host(&l, LocalHostStrategy::Strict), Ok(ip("192.168.1.5")));
}

#[test]
fn local_host_tie_is_ambiguous() {
    let mut l = repeat("192.168.1.5\t8.8.8.8\t100", 5);
    l.extend(repeat("192.168.1.6\t8.8.8.8\t100", 5));
    assert_eq!(find_local_ip(&l), Err(LocalHostError::AmbiguousLocalHost));
}

#[test]
fn local_host_majority_wins() {
    let mut l = repeat("192.168.1.5\t8.8.8.8\t100", 7);
    l.extend(repeat("192.168.1.6\t8.8.8.8\t100", 3));
    assert_eq!(find_local_ip(&l), Ok("192.168.1.5".to_string()));
    assert_eq!(
        find_local_host(&l, LocalHostStrategy::Strict),
        Err(LocalHostError::AmbiguousLocalHost)
    );
}

#[test]
fn local_host_none() {
    let l = lines(&["8.8.8.8\t1.1.1.1\t100", "127.0.0.1\t224.0.0.1\t5", "short\tline"]);
    assert_eq!(find_local_ip(&l), Err(LocalHostError::NoLocalHost));
    assert_eq!(find_local_host(&l, LocalHostStrategy::Strict), Err(LocalHostError::NoLocalHost));
    assert_eq!(find_local_ip(&[]), Err(LocalHostError::NoLocalHost));
}

#[test]
fn local_host_counts_lines_not_ends() {
    // A line whose two ends are the same candidate counts once for it.
    let mut l = repeat("192.168.1.5\t192.168.1.5\t1", 2);
    l.extend(repeat("192.168.1.6\t8.8.8.8\t1", 2));
    assert_eq!(find_local_ip(&l), Err(LocalHostError::AmbiguousLocalHost));
}

#[test]
fn end_to_end_two_lines() {
    let l = lines(&[
        "192.168.1.5\t8.8.8.8\t1500\texample.com\t\t",
        "8.8.8.8\t192.168.1.5\t500\t\t\t",
    ]);
    let local = find_local_ip(&l).unwrap();
    assert_eq!(local, "192.168.1.5");
    let r = aggregate_with_local_ip(&l, &local, None).unwrap();
    assert_eq!(r.stats.len(), 1);
    let s = stat_of(&r, "8.8.8.8").unwrap();
    assert_eq!(s.total_pkts, 2);
    assert_eq!(s.total_bytes, 2000);
    assert_eq!(s.up_pkts, 1);
    assert_eq!(s.up_bytes, 1500);
    assert_eq!(s.down_pkts, 1);
    assert_eq!(s.down_bytes, 500);
    assert_eq!(sorted_domains(s), vec!["example.com".to_string()]);
    assert_eq!((r.total_bytes, r.total_up, r.total_down), (2000, 1500, 500));
}

#[test]
fn byte_threshold_boundary() {
    let l = lines(&[
        "192.168.1.5\t8.8.8.8\t1023",
        "192.168.1.5\t9.9.9.9\t1024",
    ]);
    let mut r = aggregate_flows(&l, ip("192.168.1.5")).unwrap();
    assert_eq!(r.stats.len(), 2);
    post_filter(&mut r, None);
    assert_eq!(sorted_keys(&r), vec!["9.9.9.9".to_string()]);
    assert_eq!(r.total_bytes, 2047);
}

#[test]
fn gateway_record_is_excluded() {
    let l = lines(&[
        "192.168.1.1\t192.168.1.5\t5000\tgw.lan\t\t",
        "192.168.1.5\t192.168.1.1\t5000",
    ]);
    let r = aggregate_flows(&l, ip("192.168.1.5")).unwrap();
    assert!(r.stats.is_empty());
    assert_eq!(r.total_bytes, 0);
}

#[test]
fn lan_and_non_host_records_are_excluded() {
    let l = lines(&[
        "192.168.1.5\t10.0.0.7\t5000",
        "192.168.1.5\t224.0.0.251\t5000",
        "192.168.1.5\t255.255.255.255\t5000",
        "192.168.1.5\t169.254.3.3\t5000",
        "8.8.8.8\t1.1.1.1\t5000",
        "192.168.1.5\t8.8.8.8\t7",
    ]);
    let r = aggregate_flows(&l, ip("192.168.1.5")).unwrap();
    assert_eq!(sorted_keys(&r), vec!["8.8.8.8".to_string()]);
    assert_eq!(r.total_bytes, 7);
}

#[test]
fn malformed_lines_are_skipped() {
    let l = lines(&[
        "192.168.1.5\t8.8.8.8",
        "192.168.1.500\t8.8.8.8\t100",
        "192.168.1.5\t8.8.8\t100",
        "192.168.1.5\t8.8.8.8\tabc",
        "192.168.1.5\t8.8.8.8\t40",
    ]);
    let r = aggregate_flows(&l, ip("192.168.1.5")).unwrap();
    let s = stat_of(&r, "8.8.8.8").unwrap();
    assert_eq!(s.total_pkts, 2);
    assert_eq!(s.total_bytes, 40);
}

#[test]
fn counters_stay_balanced() {
    let l = lines(&[
        "192.168.1.5\t8.8.8.8\t100\ta.com",
        "8.8.8.8\t192.168.1.5\t70\t\tb.com",
        "192.168.1.5\t1.2.3.4\t3\t\t\tc.com",
        "1.2.3.4\t192.168.1.5\t9",
    ]);
    let r = aggregate_flows(&l, ip("192.168.1.5")).unwrap();
    for e in &r.stats {
        assert_eq!(e.stat.total_pkts, e.stat.up_pkts + e.stat.down_pkts);
        assert_eq!(e.stat.total_bytes, e.stat.up_bytes + e.stat.down_bytes);
    }
    assert_eq!(r.total_bytes, r.total_up + r.total_down);
    assert_eq!(r.total_bytes, 182);
}

#[test]
fn overflowing_totals_are_reported() {
    let l = lines(&[
        "192.168.1.5\t8.8.8.8\t18446744073709551615",
        "192.168.1.5\t8.8.8.8\t1",
    ]);
    assert!(matches!(aggregate_flows(&l, ip("192.168.1.5")), Err(CounterOverflow)));
}

#[test]
fn keyword_filter_ignores_case() {
    let l = lines(&[
        "192.168.1.5\t8.8.8.8\t2000\tWWW.Example.COM",
        "192.168.1.5\t9.9.9.9\t2000\tother.net",
    ]);
    let r = aggregate_with_local_ip(&l, "192.168.1.5", Some("EXAMPLE")).unwrap();
    assert_eq!(sorted_keys(&r), vec!["8.8.8.8".to_string()]);
    let none = aggregate_with_local_ip(&l, "192.168.1.5", Some("nomatch")).unwrap();
    assert!(none.stats.is_empty());
}

#[test]
fn unparsable_local_ip_attributes_nothing() {
    let l = lines(&["192.168.1.5\t8.8.8.8\t2000"]);
    let r = aggregate_with_local_ip(&l, "192.168.01.5", None).unwrap();
    assert!(r.stats.is_empty());
    assert_eq!(r.total_bytes, 0);
}

#[test]
fn post_filter_is_idempotent() {
    let l = lines(&[
        "192.168.1.5\t8.8.8.8\t2000\tshop.example.com",
        "192.168.1.5\t9.9.9.9\t2000\tother.net",
        "192.168.1.5\t7.7.7.7\t10\texample.org",
    ]);
    let mut once = aggregate_flows(&l, ip("192.168.1.5")).unwrap();
    post_filter(&mut once, Some("example"));
    let keys = sorted_keys(&once);
    assert_eq!(keys, vec!["8.8.8.8".to_string()]);
    post_filter(&mut once, Some("example"));
    assert_eq!(sorted_keys(&once), keys);
}

fn summary(r: &AggregationResult) -> Vec<(String, u64, u64, u64, u64, u64, u64, Vec<String>)> {
    let mut v: Vec<_> = r
        .stats
        .iter()
        .map(|e| {
            let s = &e.stat;
            (
                format_ipv4(&e.ip),
                s.total_pkts,
                s.total_bytes,
                s.up_pkts,
                s.up_bytes,
                s.down_pkts,
                s.down_bytes,
                sorted_domains(s),
            )
        })
        .collect();
    v.sort();
    v
}

#[test]
fn merge_order_does_not_matter() {
    let a = || {
        aggregate_flows(
            &lines(&["192.168.1.5\t8.8.8.8\t600\ta.com", "192.168.1.5\t1.1.1.1\t5"]),
            ip("192.168.1.5"),
        )
        .unwrap()
    };
    let b = || {
        aggregate_flows(
            &lines(&["8.8.8.8\t10.0.0.2\t700\tb.com", "10.0.0.2\t9.9.9.9\t1"]),
            ip("10.0.0.2"),
        )
        .unwrap()
    };
    let c = || aggregate_flows(&lines(&["8.8.8.8\t172.16.0.9\t50\ta.com"]), ip("172.16.0.9")).unwrap();
    let ab_c = merge_results(merge_results(a(), b()).unwrap(), c()).unwrap();
    let c_ba = merge_results(c(), merge_results(b(), a()).unwrap()).unwrap();
    assert_eq!(summary(&ab_c), summary(&c_ba));
    let s = stat_of(&ab_c, "8.8.8.8").unwrap();
    assert_eq!((s.total_pkts, s.total_bytes, s.up_bytes, s.down_bytes), (3, 1350, 600, 750));
    assert_eq!(sorted_domains(s), vec!["a.com".to_string(), "b.com".to_string()]);
    assert_eq!(ab_c.total_bytes, 1356);
}

#[test]
fn merged_entries_are_filtered_once() {
    let f1 = aggregate_flows(&lines(&["192.168.1.5\t8.8.8.8\t600"]), ip("192.168.1.5")).unwrap();
    let f2 = aggregate_flows(&lines(&["8.8.8.8\t192.168.1.9\t600"]), ip("192.168.1.9")).unwrap();
    let merged = merge_all(vec![f1, f2], None).unwrap();
    let s = stat_of(&merged, "8.8.8.8").unwrap();
    assert_eq!(s.total_bytes, 1200);
    assert!(merge_all(Vec::new(), None).unwrap().stats.is_empty());
}

#[test]
fn merge_overflow_is_reported() {
    let f1 = aggregate_flows(&lines(&["192.168.1.5\t8.8.8.8\t18446744073709551615"]), ip("192.168.1.5")).unwrap();
    let f2 = aggregate_flows(&lines(&["192.168.1.5\t8.8.8.8\t1"]), ip("192.168.1.5")).unwrap();
    assert!(merge_results(f1, f2).is_err());
}

#[test]
fn analyze_lines_runs_the_pipeline() {
    let l = lines(&[
        "192.168.1.5\t8.8.8.8\t1500\texample.com\t\t",
        "8.8.8.8\t192.168.1.5\t500\t\t\t",
    ]);
    let (local, r) = analyze_lines(&l, LocalHostStrategy::Majority, None).unwrap();
    assert_eq!(format_ipv4(&local), "192.168.1.5");
    assert_eq!(r.stats.len(), 1);
    assert!(matches!(
        analyze_lines(&lines(&["8.8.8.8\t1.1.1.1\t1"]), LocalHostStrategy::Majority, None),
        Err(AnalysisError::LocalHost(LocalHostError::NoLocalHost))
    ));
}

#[test]
fn analyze_lines_reports_overflow_and_strict_ambiguity() {
    let big = lines(&[
        "192.168.1.5\t8.8.8.8\t18446744073709551615",
        "8.8.8.8\t192.168.1.5\t2",
    ]);
    assert!(matches!(
        analyze_lines(&big, LocalHostStrategy::Majority, None),
        Err(AnalysisError::Overflow(CounterOverflow))
    ));
    let two = lines(&[
        "192.168.1.5\t8.8.8.8\t10",
        "192.168.1.5\t8.8.8.8\t10",
        "10.0.0.3\t8.8.8.8\t10",
    ]);
    assert!(matches!(
        analyze_lines(&two, LocalHostStrategy::Strict, None),
        Err(AnalysisError::LocalHost(LocalHostError::AmbiguousLocalHost))
    ));
    let (local, _) = analyze_lines(&two, LocalHostStrategy::Majority, None).unwrap();
    assert_eq!(format_ipv4(&local), "192.168.1.5");
}
