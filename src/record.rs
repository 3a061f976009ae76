//! The record parser: one tab-separated line of the decoder's output becomes
//! one flow record.

use vstd::prelude::*;
use crate::addr::{all_digits, decimal_value, ipv4_of, is_digit, parse_ipv4, Ipv4};
use crate::text::{chars_of, split_fields, split_on};

verus! {

/// Why a line yields no flow record.
#[derive(Clone, Copy, Debug, PartialEq, Eq, Structural)]
pub enum MalformedRecord {
    /// Fewer than three tab-separated columns.
    TooFewColumns,
    /// The source column is not a dotted-decimal IPv4 address.
    BadSource,
    /// The destination column is not a dotted-decimal IPv4 address.
    BadDestination,
}

/// One flow line: its two endpoints, its length in bytes, and the three
/// domain-hint columns (DNS query name, HTTP host, TLS server name).
pub struct FlowRecord {
    pub src: Ipv4,
    pub dst: Ipv4,
    pub length: u64,
    pub dns_name: String,
    pub http_host: String,
    pub tls_sni: String,
}

pub ghost struct FlowRecordView {
    pub src: Ipv4,
    pub dst: Ipv4,
    pub length: nat,
    pub hints: Seq<Seq<char>>,
}

impl View for FlowRecord {
    type V = FlowRecordView;

    open spec fn view(&self) -> FlowRecordView {
        FlowRecordView {
            src: self.src,
            dst: self.dst,
            length: self.length as nat,
            hints: seq![self.dns_name@, self.http_host@, self.tls_sni@],
        }
    }
}

/// The length column read as `u64::from_str` reads it (an optional `+`, then
/// decimal digits, at most `u64::MAX`); anything else counts as zero.
pub open spec fn length_of(s: Seq<char>) -> nat {
    let d = if s.len() > 0 && s[0] == '+' {
        s.drop_first()
    } else {
        s
    };
    if d.len() > 0 && all_digits(d) && decimal_value(d) <= u64::MAX {
        decimal_value(d)
    } else {
        0
    }
}

/// Column `i` of a split line, or the empty string where the line is shorter.
pub open spec fn column(cols: Seq<Seq<char>>, i: int) -> Seq<char> {
    if 0 <= i < cols.len() {
        cols[i]
    } else {
        Seq::<char>::empty()
    }
}

/// The record that a line holds, or why it holds none.
pub open spec fn record_of(line: Seq<char>) -> Result<FlowRecordView, MalformedRecord> {
    let cols = split_on(line, '\t');
    if cols.len() < 3 {
        Err(MalformedRecord::TooFewColumns)
    } else if ipv4_of(cols[0]) is None {
        Err(MalformedRecord::BadSource)
    } else if ipv4_of(cols[1]) is None {
        Err(MalformedRecord::BadDestination)
    } else {
        Ok(
            FlowRecordView {
                src: ipv4_of(cols[0])->0,
                dst: ipv4_of(cols[1])->0,
                length: length_of(cols[2]),
                hints: seq![column(cols, 3), column(cols, 4), column(cols, 5)],
            },
        )
    }
}

proof fn lemma_decimal_prefix_le(s: Seq<char>, i: int)
    requires
        0 <= i <= s.len(),
    ensures
        decimal_value(s.take(i)) <= decimal_value(s),
    decreases s.len() - i,
{
    if i < s.len() {
        lemma_decimal_prefix_le(s, i + 1);
        assert(s.take(i + 1).drop_last() =~= s.take(i));
    } else {
        assert(s.take(i) =~= s);
    }
}

/// Reads the length column; zero where it is not a `u64`.
pub fn parse_length(s: &str) -> (r: u64)
    ensures
        r == length_of(s@),
{
    let cs = chars_of(s);
    let start: usize = if cs.len() > 0 && cs[0] == '+' {
        1
    } else {
        0
    };
    let ghost d = if s@.len() > 0 && s@[0] == '+' {
        s@.drop_first()
    } else {
        s@
    };
    assert(d =~= s@.subrange(start as int, s@.len() as int));
    if start >= cs.len() {
        return 0;
    }
    let mut v: u64 = 0;
    let mut i: usize = start;
    while i < cs.len()
        invariant
            cs@ == s@,
            start <= i <= cs.len(),
            d == s@.subrange(start as int, s@.len() as int),
            d == (if s@.len() > 0 && s@[0] == '+' {
                s@.drop_first()
            } else {
                s@
            }),
            all_digits(d.take(i - start)),
            v == decimal_value(d.take(i - start)),
        decreases cs.len() - i,
    {
        let c = cs[i];
        let ghost k = i - start;
        assert(d[k] == c);
        if !('0' <= c && c <= '9') {
            assert(!is_digit(d[k]));
            assert(!all_digits(d));
            return 0;
        }
        let dv = c as u32 - '0' as u32;
        proof {
            assert(d.take(k + 1).drop_last() =~= d.take(k));
            assert(d.take(k + 1).last() == c);
        }
        if v > (u64::MAX - dv as u64) / 10 {
            proof {
                assert(v * 10 + dv > u64::MAX) by (nonlinear_arith)
                    requires
                        v > (u64::MAX - dv) / 10,
                        dv <= 9,
                ;
                lemma_decimal_prefix_le(d, k + 1);
                assert(decimal_value(d.take(k + 1)) == v * 10 + dv);
                assert(decimal_value(d) > u64::MAX);
            }
            return 0;
        }
        v = v * 10 + dv as u64;
        i = i + 1;
        proof {
            assert forall|j: int| 0 <= j < k + 1 implies is_digit(#[trigger] d.take(k + 1)[j]) by {
                if j < k {
                    assert(d.take(k + 1)[j] == d.take(k)[j]);
                }
            }
        }
    }
    assert(d.take(d.len() as int) =~= d);
    v
}

/// Parses one tab-separated flow line.
pub fn parse_record(line: &str) -> (r: Result<FlowRecord, MalformedRecord>)
    ensures
        match (r, record_of(line@)) {
            (Ok(rec), Ok(spec_rec)) => rec@ == spec_rec,
            (Err(e), Err(spec_e)) => e == spec_e,
            _ => false,
        },
{
    let cols = split_fields(line, '\t');
    let ghost sc = split_on(line@, '\t');
    assert(cols@.len() == sc.len());
    if cols.len() < 3 {
        return Err(MalformedRecord::TooFewColumns);
    }
    assert(cols@[0]@ == sc[0]);
    assert(cols@[1]@ == sc[1]);
    assert(cols@[2]@ == sc[2]);
    let src = match parse_ipv4(cols[0].as_str()) {
        Some(ip) => ip,
        None => {
            return Err(MalformedRecord::BadSource);
        },
    };
    let dst = match parse_ipv4(cols[1].as_str()) {
        Some(ip) => ip,
        None => {
            return Err(MalformedRecord::BadDestination);
        },
    };
    let length = parse_length(cols[2].as_str());
    let mut hints: Vec<String> = Vec::new();
    let mut i: usize = 3;
    while i < 6
        invariant
            3 <= i <= 6,
            cols@.len() == sc.len(),
            forall|j: int| 0 <= j < cols@.len() ==> #[trigger] cols@[j]@ == sc[j],
            hints@.len() == i - 3,
            forall|j: int| 0 <= j < i - 3 ==> #[trigger] hints@[j]@ == column(sc, j + 3),
        decreases 6 - i,
    {
        if i < cols.len() {
            hints.push(cols[i].clone());
        } else {
            hints.push(String::new());
        }
        i = i + 1;
    }
    let tls_sni = hints.pop().unwrap();
    let http_host = hints.pop().unwrap();
    let dns_name = hints.pop().unwrap();
    let rec = FlowRecord { src, dst, length, dns_name, http_host, tls_sni };
    assert(rec@.hints =~= seq![column(sc, 3), column(sc, 4), column(sc, 5)]);
    Ok(rec)
}

} // verus!
