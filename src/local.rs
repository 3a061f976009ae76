//! The local-host detector: which private address of a capture is the
//! observation point that every flow's direction is judged against.

use vstd::prelude::*;
use crate::addr::{format_ipv4, ipv4_text, is_candidate_ip, is_candidate_spec, Ipv4};
use crate::aggregate::line_views;
use crate::record::{parse_record, record_of};

verus! {

/// Why no local host could be chosen.
#[derive(Clone, Copy, Debug, PartialEq, Eq, Structural)]
pub enum LocalHostError {
    /// No private-range host address occurs in the input.
    NoLocalHost,
    /// Two or more private-range host addresses tie for the choice.
    AmbiguousLocalHost,
}

/// How a local host is chosen among several candidates.
#[derive(Clone, Copy, Debug, PartialEq, Eq, Structural)]
pub enum LocalHostStrategy {
    /// Only a single candidate is accepted.
    Strict,
    /// The candidate on strictly the most lines wins.
    Majority,
}

/// Whether a line holds a record with `ip` at one of its ends, `ip` being a
/// possible local host.
pub open spec fn mentions(line: Seq<char>, ip: Ipv4) -> bool {
    is_candidate_spec(ip) && match record_of(line) {
        Ok(r) => r.src == ip || r.dst == ip,
        Err(_) => false,
    }
}

/// On how many lines `ip` occurs as a possible local host.
pub open spec fn mention_count(lines: Seq<Seq<char>>, ip: Ipv4) -> nat
    decreases lines.len(),
{
    if lines.len() == 0 {
        0
    } else {
        mention_count(lines.drop_last(), ip) + if mentions(lines.last(), ip) {
            1nat
        } else {
            0nat
        }
    }
}

pub open spec fn no_candidate(lines: Seq<Seq<char>>) -> bool {
    forall|o: Ipv4| #[trigger] mention_count(lines, o) == 0
}

/// `ip` occurs on more lines than any other candidate.
pub open spec fn majority_winner(lines: Seq<Seq<char>>, ip: Ipv4) -> bool {
    mention_count(lines, ip) > 0 && forall|o: Ipv4|
        o != ip ==> #[trigger] mention_count(lines, o) < mention_count(lines, ip)
}

/// Two candidates share the largest count.
pub open spec fn majority_tied(lines: Seq<Seq<char>>) -> bool {
    exists|x: Ipv4, y: Ipv4|
        x != y && mention_count(lines, x) > 0 && #[trigger] mention_count(lines, x)
            == #[trigger] mention_count(lines, y) && forall|o: Ipv4|
            #[trigger] mention_count(lines, o) <= mention_count(lines, x)
}

/// `ip` is the only candidate.
pub open spec fn sole_candidate(lines: Seq<Seq<char>>, ip: Ipv4) -> bool {
    mention_count(lines, ip) > 0 && forall|o: Ipv4| o != ip ==> #[trigger] mention_count(lines, o) == 0
}

/// At least two candidates occur.
pub open spec fn several_candidates(lines: Seq<Seq<char>>) -> bool {
    exists|x: Ipv4, y: Ipv4|
        x != y && #[trigger] mention_count(lines, x) > 0 && #[trigger] mention_count(lines, y) > 0
}

/// What the detector answers for `lines` under `strategy`.
pub open spec fn local_host_outcome(
    lines: Seq<Seq<char>>,
    strategy: LocalHostStrategy,
    r: Result<Ipv4, LocalHostError>,
) -> bool {
    match r {
        Ok(ip) => match strategy {
            LocalHostStrategy::Majority => majority_winner(lines, ip),
            LocalHostStrategy::Strict => sole_candidate(lines, ip),
        },
        Err(LocalHostError::NoLocalHost) => no_candidate(lines),
        Err(LocalHostError::AmbiguousLocalHost) => match strategy {
            LocalHostStrategy::Majority => majority_tied(lines),
            LocalHostStrategy::Strict => several_candidates(lines),
        },
    }
}

/// A candidate and the number of lines it occurs on so far.
struct Tally {
    ip: Ipv4,
    count: usize,
}

spec fn tally_count(t: Seq<Tally>, o: Ipv4) -> nat
    decreases t.len(),
{
    if t.len() == 0 {
        0
    } else if t.last().ip == o {
        t.last().count as nat
    } else {
        tally_count(t.drop_last(), o)
    }
}

spec fn tally_distinct(t: Seq<Tally>) -> bool {
    forall|i: int, j: int| 0 <= i < j < t.len() ==> t[i].ip != t[j].ip
}

spec fn tally_positive(t: Seq<Tally>) -> bool {
    forall|i: int| 0 <= i < t.len() ==> (#[trigger] t[i]).count > 0
}

spec fn tally_exact(t: Seq<Tally>, lines: Seq<Seq<char>>) -> bool {
    &&& tally_distinct(t)
    &&& tally_positive(t)
    &&& forall|o: Ipv4| #[trigger] tally_count(t, o) == mention_count(lines, o)
}

proof fn lemma_tally_index(t: Seq<Tally>, j: int)
    requires
        tally_distinct(t),
        0 <= j < t.len(),
    ensures
        tally_count(t, t[j].ip) == t[j].count,
    decreases t.len(),
{
    if j < t.len() - 1 {
        lemma_tally_index(t.drop_last(), j);
        assert(t.drop_last()[j] == t[j]);
    }
}

proof fn lemma_tally_absent(t: Seq<Tally>, o: Ipv4)
    requires
        forall|k: int| 0 <= k < t.len() ==> (#[trigger] t[k]).ip != o,
    ensures
        tally_count(t, o) == 0,
    decreases t.len(),
{
    if t.len() > 0 {
        assert(t.last() == t[t.len() - 1]);
        assert forall|k: int| 0 <= k < t.drop_last().len() implies (#[trigger] t.drop_last()[k]).ip != o by {
            assert(t.drop_last()[k] == t[k]);
        }
        lemma_tally_absent(t.drop_last(), o);
    }
}

proof fn lemma_tally_update(t: Seq<Tally>, j: int, c: usize, o: Ipv4)
    requires
        tally_distinct(t),
        0 <= j < t.len(),
    ensures
        tally_count(t.update(j, Tally { ip: t[j].ip, count: c }), o) == if o == t[j].ip {
            c as nat
        } else {
            tally_count(t, o)
        },
    decreases t.len(),
{
    let u = t.update(j, Tally { ip: t[j].ip, count: c });
    if j == t.len() - 1 {
        assert(u.drop_last() =~= t.drop_last());
        if o == t[j].ip {
        } else {
        }
    } else {
        assert(u.drop_last() =~= t.drop_last().update(j, Tally { ip: t[j].ip, count: c }));
        lemma_tally_update(t.drop_last(), j, c, o);
        assert(t.drop_last()[j] == t[j]);
    }
}

proof fn lemma_count_le(lines: Seq<Seq<char>>, ip: Ipv4)
    ensures
        mention_count(lines, ip) <= lines.len(),
    decreases lines.len(),
{
    if lines.len() > 0 {
        lemma_count_le(lines.drop_last(), ip);
    }
}

/// Counts one more occurrence of `ip`.
fn bump(t: &mut Vec<Tally>, ip: Ipv4)
    requires
        tally_distinct(old(t)@),
        tally_positive(old(t)@),
        tally_count(old(t)@, ip) < usize::MAX,
    ensures
        tally_distinct(final(t)@),
        tally_positive(final(t)@),
        forall|o: Ipv4| #[trigger] tally_count(final(t)@, o) == tally_count(old(t)@, o) + if o == ip {
            1nat
        } else {
            0nat
        },
{
    let mut i: usize = 0;
    while i < t.len()
        invariant
            0 <= i <= t@.len(),
            t@ == old(t)@,
            tally_distinct(t@),
            tally_positive(t@),
            tally_count(t@, ip) < usize::MAX,
            forall|j: int| 0 <= j < i ==> (#[trigger] t@[j]).ip != ip,
        decreases t@.len() - i,
    {
        if t[i].ip == ip {
            proof {
                lemma_tally_index(t@, i as int);
            }
            let c = t[i].count + 1;
            let ghost t0 = t@;
            t.set(i, Tally { ip, count: c });
            proof {
                assert(t@ == t0.update(i as int, Tally { ip: t0[i as int].ip, count: c }));
                assert forall|j: int| 0 <= j < t@.len() implies (#[trigger] t@[j]).count > 0 by {
                    if j != i {
                        assert(t@[j] == t0[j]);
                    }
                }
                assert forall|o: Ipv4| #[trigger] tally_count(t@, o) == tally_count(t0, o) + if o == ip {
                    1nat
                } else {
                    0nat
                } by {
                    lemma_tally_update(t0, i as int, c, o);
                }
            }
            return;
        }
        i = i + 1;
    }
    proof {
        lemma_tally_absent(t@, ip);
    }
    let ghost t0 = t@;
    t.push(Tally { ip, count: 1 });
    proof {
        assert(t@.drop_last() =~= t0);
        assert forall|i: int, j: int| 0 <= i < j < t@.len() implies t@[i].ip != t@[j].ip by {
            if j == t0.len() {
                assert(t@[i] == t0[i]);
            }
        }
    }
}

/// Chooses the local host among the private host addresses on `lines`.
pub fn find_local_host(lines: &[String], strategy: LocalHostStrategy) -> (r: Result<
    Ipv4,
    LocalHostError,
>)
    ensures
        local_host_outcome(line_views(lines@), strategy, r),
{
    let ghost ls = line_views(lines@);
    let mut t: Vec<Tally> = Vec::new();
    let mut i: usize = 0;
    while i < lines.len()
        invariant
            ls == line_views(lines@),
            0 <= i <= lines@.len(),
            tally_exact(t@, ls.take(i as int)),
        decreases lines@.len() - i,
    {
        let ghost pre = ls.take(i as int);
        let ghost cur = ls.take(i as int + 1);
        proof {
            assert(cur.drop_last() =~= pre);
            assert(cur.last() == lines@[i as int]@);
        }
        let ghost t0 = t@;
        match parse_record(lines[i].as_str()) {
            Err(_) => {
                proof {
                    assert forall|o: Ipv4| #[trigger] mention_count(cur, o) == mention_count(pre, o) by {}
                }
            },
            Ok(rec) => {
                let src_c = is_candidate_ip(&rec.src);
                let dst_c = is_candidate_ip(&rec.dst) && rec.dst != rec.src;
                proof {
                    lemma_count_le(pre, rec.src);
                    lemma_count_le(pre, rec.dst);
                }
                if src_c {
                    bump(&mut t, rec.src);
                }
                if dst_c {
                    bump(&mut t, rec.dst);
                }
                proof {
                    assert forall|o: Ipv4| #[trigger] tally_count(t@, o) == mention_count(cur, o) by {
                        if is_candidate_spec(o) && (o == rec.src || o == rec.dst) {
                        }
                    }
                }
            },
        }
        i = i + 1;
    }
    proof {
        assert(ls.take(lines@.len() as int) =~= ls);
        assert forall|j: int| 0 <= j < t@.len() implies mention_count(ls, (#[trigger] t@[j]).ip)
            == t@[j].count by {
            lemma_tally_index(t@, j);
        }
        assert forall|o: Ipv4|
            (forall|j: int| 0 <= j < t@.len() ==> (#[trigger] t@[j]).ip != o) implies mention_count(
            ls,
            o,
        ) == 0 by {
            lemma_tally_absent(t@, o);
        }
    }
    if t.len() == 0 {
        return Err(LocalHostError::NoLocalHost);
    }
    match strategy {
        LocalHostStrategy::Strict => {
            if t.len() == 1 {
                proof {
                    assert(t@[0].count > 0);
                    assert forall|o: Ipv4| o != t@[0].ip implies #[trigger] mention_count(ls, o)
                        == 0 by {
                        assert forall|j: int| 0 <= j < t@.len() implies (#[trigger] t@[j]).ip
                            != o by {
                            assert(j == 0);
                        }
                    }
                }
                Ok(t[0].ip)
            } else {
                proof {
                    assert(t@[0].ip != t@[1].ip);
                    assert(t@[0].count > 0 && t@[1].count > 0);
                    assert(mention_count(ls, t@[0].ip) > 0 && mention_count(ls, t@[1].ip) > 0);
                }
                Err(LocalHostError::AmbiguousLocalHost)
            }
        },
        LocalHostStrategy::Majority => {
            let mut best: usize = 0;
            let mut tied = false;
            let ghost mut tie_with: int = 0;
            let mut k: usize = 1;
            while k < t.len()
                invariant
                    1 <= k <= t@.len(),
                    best < k,
                    forall|j: int| 0 <= j < k ==> (#[trigger] t@[j]).count <= t@[best as int].count,
                    tied ==> 0 <= tie_with < k && tie_with != best && t@[tie_with].count
                        == t@[best as int].count,
                    !tied ==> forall|j: int|
                        0 <= j < k && j != best ==> (#[trigger] t@[j]).count < t@[best as int].count,
                decreases t@.len() - k,
            {
                if t[k].count > t[best].count {
                    best = k;
                    tied = false;
                } else if t[k].count == t[best].count {
                    tied = true;
                    proof {
                        tie_with = k as int;
                    }
                }
                k = k + 1;
            }
            let ip = t[best].ip;
            if tied {
                proof {
                    let x = t@[best as int].ip;
                    let y = t@[tie_with].ip;
                    assert(x != y);
                    assert forall|o: Ipv4| #[trigger] mention_count(ls, o) <= mention_count(ls, x) by {
                        if exists|j: int| 0 <= j < t@.len() && (#[trigger] t@[j]).ip == o {
                            let j = choose|j: int| 0 <= j < t@.len() && (#[trigger] t@[j]).ip == o;
                        }
                    }
                    assert(mention_count(ls, x) == mention_count(ls, y));
                }
                Err(LocalHostError::AmbiguousLocalHost)
            } else {
                proof {
                    assert forall|o: Ipv4| o != ip implies #[trigger] mention_count(ls, o) < mention_count(ls, ip) by {
                        if exists|j: int| 0 <= j < t@.len() && (#[trigger] t@[j]).ip == o {
                            let j = choose|j: int| 0 <= j < t@.len() && (#[trigger] t@[j]).ip == o;
                        }
                    }
                }
                Ok(ip)
            }
        },
    }
}

/// The local host of a capture, chosen by majority, in dotted-decimal form.
pub fn find_local_ip(lines: &[String]) -> (r: Result<String, LocalHostError>)
    ensures
        match r {
            Ok(s) => exists|ip: Ipv4| s@ == ipv4_text(ip) && majority_winner(line_views(lines@), ip),
            Err(LocalHostError::NoLocalHost) => no_candidate(line_views(lines@)),
            Err(LocalHostError::AmbiguousLocalHost) => majority_tied(line_views(lines@)),
        },
{
    match find_local_host(lines, LocalHostStrategy::Majority) {
        Ok(ip) => Ok(format_ipv4(&ip)),
        Err(e) => Err(e),
    }
}

} // verus!
