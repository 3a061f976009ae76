use pcapracer::addr::parse_ipv4;
use pcapracer::aggregate::aggregate_flows;
use pcapracer::report::{
    csv_header, csv_summary, format_bytes, lookup_location, report_rows, sort_domains,
    sort_stats_by_up_bytes,
};
use pcapracer::stats::{FlowStat, HostEntry};

fn float_format(bytes: u64) -> String {
    let kb = 1024.0;
    let mb = 1024.0 * 1024.0;
    let f = bytes as f64;
    if f >= mb {
        format!("{:.2} MB", f / mb)
    } else if f >= kb {
        format!("{:.2} KB", f / kb)
    } else {
        format!("{} B", bytes)
    }
}

#[test]
fn format_bytes_units() {
    assert_eq!(format_bytes(0), "0 B");
    assert_eq!(format_bytes(1023), "1023 B");
    assert_eq!(format_bytes(1024), "1.00 KB");
    assert_eq!(format_bytes(1536), "1.50 KB");
    assert_eq!(format_bytes(1048576), "1.00 MB");
    assert_eq!(format_bytes(5 * 1048576 + 524288), "5.50 MB");
}

#[test]
fn format_bytes_matches_float_formatting() {
    let mut samples: Vec<u64> = vec![1023, 1024, 1025, 1029, 1030, 1034, 1035, 2047, 1048575, 1048576, 1053818, 1053819];
    for b in (1000u64..40000).step_by(7) {
        samples.push(b);
    }
    for b in (1048000u64..1300000).step_by(331) {
        samples.push(b);
    }
    // Exact halves: 1024 * k / 100 with a remainder of one half.
    for k in 0u64..4000 {
        samples.push(1024 + 128 * k / 25 * 1 + (k % 3));
        samples.push(k * 5243 + 1048576);
    }
    samples.push(1u64 << 40);
    samples.push((1u64 << 52) + 12345);
    for b in samples {
        assert_eq!(format_bytes(b), float_format(b), "{b}");
    }
}

fn entry(addr: &str, up: u64, domains: &[&str]) -> HostEntry {
    let mut stat = FlowStat::new();
    stat.total_pkts = 1;
    stat.up_pkts = 1;
    stat.total_bytes = up;
    stat.up_bytes = up;
    stat.domains = domains.iter().map(|d| d.to_string()).collect();
    HostEntry { ip: parse_ipv4(addr).unwrap(), stat }
}

#[test]
fn sort_by_upload_bytes_descending() {
    let v = vec![entry("1.1.1.1", 5, &[]), entry("2.2.2.2", 50, &[]), entry("3.3.3.3", 20, &[]), entry("4.4.4.4", 50, &[])];
    let s = sort_stats_by_up_bytes(&v);
    let ups: Vec<u64> = s.iter().map(|e| e.stat.up_bytes).collect();
    assert_eq!(ups, vec![50, 50, 20, 5]);
    assert_eq!(s[0].ip, v[1].ip);
    assert_eq!(s[1].ip, v[3].ip);
    assert!(sort_stats_by_up_bytes(&Vec::new()).is_empty());
}

#[test]
fn domains_sorted_lexicographically() {
    let d: Vec<String> = ["b.com", "a.com", "ab.com", "a"].iter().map(|s| s.to_string()).collect();
    let mut expected = d.clone();
    expected.sort();
    assert_eq!(sort_domains(&d), expected);
}

#[test]
fn location_lookup_or_unknown() {
    let locs = vec![("8.8.8.8".to_string(), "美国".to_string())];
    assert_eq!(lookup_location(&locs, "8.8.8.8"), "美国");
    assert_eq!(lookup_location(&locs, "1.1.1.1"), "未知");
}

#[test]
fn report_rows_layout() {
    let l: Vec<String> = vec![
        "192.168.1.5\t8.8.8.8\t1500\tb.com,a.com".to_string(),
        "192.168.1.5\t9.9.9.9\t3000".to_string(),
    ];
    let r = aggregate_flows(&l, parse_ipv4("192.168.1.5").unwrap()).unwrap();
    let sorted = sort_stats_by_up_bytes(&r.stats);
    let locs = vec![("8.8.8.8".to_string(), "美国".to_string())];
    let rows = report_rows(&sorted, &locs, r.total_bytes, r.total_up, r.total_down);
    assert_eq!(rows.len(), 4);
    assert_eq!(rows[0], csv_header(2));
    assert_eq!(rows[0].len(), 13);
    assert_eq!(rows[0][10], "业务说明");
    assert_eq!(rows[0][12], "归属地");
    assert_eq!(
        rows[1],
        vec!["9.9.9.9", "1", "3000", "2.93 KB", "1", "3000", "2.93 KB", "0", "0", "0 B", "", "", "未知"]
    );
    assert_eq!(
        rows[2],
        vec!["8.8.8.8", "1", "1500", "1.46 KB", "1", "1500", "1.46 KB", "0", "0", "0 B", "a.com", "b.com", "美国"]
    );
    assert_eq!(rows[3], csv_summary(4500, 4500, 0, 2));
    assert_eq!(rows[3], vec!["总计", "", "4.39 KB", "", "4.39 KB", "", "0 B", "", "", "", "", "", ""]);
}

#[test]
fn format_bytes_halves_go_to_even() {
    assert_eq!(format_bytes(1152), "1.12 KB");
    assert_eq!(format_bytes(1152), float_format(1152));
    assert_eq!(format_bytes(1408), "1.38 KB");
    assert_eq!(format_bytes(1408), float_format(1408));
}
