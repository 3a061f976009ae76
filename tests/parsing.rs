use pcapracer::addr::{format_ipv4, is_public_ipv4, parse_ipv4, Ipv4};
use pcapracer::location::{check_query_ip, chunk_ips, IpQueryError, RawIpInfo};
use pcapracer::record::{parse_length, parse_record, MalformedRecord};
use pcapracer::text::{contains_substring, split_fields, str_le, trimmed};

#[test]
fn ipv4_parsing_follows_dotted_decimal() {
    assert_eq!(parse_ipv4("8.8.4.4"), Some(Ipv4 { a: 8, b: 8, c: 4, d: 4 }));
    assert_eq!(parse_ipv4("0.0.0.0"), Some(Ipv4 { a: 0, b: 0, c: 0, d: 0 }));
    assert_eq!(parse_ipv4("255.255.255.255"), Some(Ipv4 { a: 255, b: 255, c: 255, d: 255 }));
    for bad in ["", "1.2.3", "1.2.3.4.5", "256.1.1.1", "01.1.1.1", "1..1.1", " 1.1.1.1", "1.1.1.1 ", "a.b.c.d", "1.1.1.1000"] {
        assert_eq!(parse_ipv4(bad), None, "{bad}");
    }
    for s in ["1.2.3.4", "10.0.0.1", "192.168.100.254"] {
        assert_eq!(format_ipv4(&parse_ipv4(s).unwrap()), s);
    }
}

#[test]
fn length_column_reads_like_u64() {
    assert_eq!(parse_length("1500"), 1500);
    assert_eq!(parse_length("+7"), 7);
    assert_eq!(parse_length("0"), 0);
    assert_eq!(parse_length(""), 0);
    assert_eq!(parse_length("+"), 0);
    assert_eq!(parse_length("-1"), 0);
    assert_eq!(parse_length("12a"), 0);
    assert_eq!(parse_length("18446744073709551615"), u64::MAX);
    assert_eq!(parse_length("18446744073709551616"), 0);
}

#[test]
fn record_parser_rejects_and_accepts() {
    assert_eq!(parse_record("1.1.1.1\t2.2.2.2").err(), Some(MalformedRecord::TooFewColumns));
    assert_eq!(parse_record("x\t2.2.2.2\t1").err(), Some(MalformedRecord::BadSource));
    assert_eq!(parse_record("1.1.1.1\t\t1").err(), Some(MalformedRecord::BadDestination));
    let r = parse_record("1.1.1.1\t2.2.2.2\tbad\tq.example\thost.example").unwrap();
    assert_eq!(r.length, 0);
    assert_eq!(r.dns_name, "q.example");
    assert_eq!(r.http_host, "host.example");
    assert_eq!(r.tls_sni, "");
    assert_eq!(r.src, Ipv4 { a: 1, b: 1, c: 1, d: 1 });
}

#[test]
fn text_helpers() {
    assert_eq!(split_fields("a\t\tb", '\t'), vec!["a".to_string(), String::new(), "b".to_string()]);
    assert_eq!(split_fields("", ','), vec![String::new()]);
    assert_eq!(trimmed(&"  a b \t".to_string()), "a b");
    assert_eq!(trimmed(&" \u{3000} ".to_string()), "");
    assert!(contains_substring("shop.example.com", "example"));
    assert!(contains_substring("abc", ""));
    assert!(!contains_substring("exam", "example"));
    assert!(str_le("a.com", "b.com"));
    assert!(str_le("a", "ab"));
    assert!(!str_le("b", "a"));
}

#[test]
fn public_address_checks() {
    assert!(is_public_ipv4(&parse_ipv4("8.8.8.8").unwrap()));
    for s in ["10.1.1.1", "172.20.0.1", "192.168.0.3", "127.0.0.1", "169.254.1.1", "0.1.2.3", "224.0.0.1", "250.1.1.1"] {
        assert!(!is_public_ipv4(&parse_ipv4(s).unwrap()), "{s}");
    }
    assert_eq!(check_query_ip("8.8.8.8"), Ok(Ipv4 { a: 8, b: 8, c: 8, d: 8 }));
    assert_eq!(check_query_ip("nope"), Err(IpQueryError::Invalid));
    assert_eq!(check_query_ip("192.168.1.1"), Err(IpQueryError::NotPublic));
}

#[test]
fn batches_of_addresses() {
    let ips: Vec<String> = (0..5).map(|i| format!("1.1.1.{i}")).collect();
    let c = chunk_ips(&ips, 2);
    assert_eq!(c.len(), 3);
    assert_eq!(c[0], vec!["1.1.1.0".to_string(), "1.1.1.1".to_string()]);
    assert_eq!(c[2], vec!["1.1.1.4".to_string()]);
    assert!(chunk_ips(&Vec::new(), 100).is_empty());
}

#[test]
fn location_text_concatenates() {
    let info = RawIpInfo {
        ip: "8.8.8.8".to_string(),
        country: "美国".to_string(),
        province: "加州".to_string(),
        city: "山景城".to_string(),
        isp: "谷歌".to_string(),
    };
    assert_eq!(info.location_text(), "美国加州山景城谷歌");
}
