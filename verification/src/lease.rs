//! The DHCP lease parser.
//!
//! A lease file is a concatenation of blocks. A block is opened by a line
//! whose first token is `lease` (its second token is the address) and
//! closed by a line whose trimmed text is `}`. An `ends` line inside the
//! block carries the lease expiry as a weekday number followed by a
//! `YYYY/MM/DD HH:MM:SS;` timestamp in UTC. The parser emits the set of
//! addresses whose lease ends strictly after the given instant.

use vstd::prelude::*;

use crate::text::bytes_eq;
use crate::text::copy_bytes;
use crate::text::join_from;
use crate::text::join_sp;
use crate::text::lines_of;
use crate::text::split_lines;
use crate::text::tokenize;
use crate::text::tokens_of;
use crate::text::trim;
use crate::text::trim_of;
use crate::text::view_opt;
use crate::text::views_of;

verus! {

/// The end-of-lease instant denoted by a timestamp text, as non-leap
/// seconds since the Unix epoch, when the text is a well-formed
/// `YYYY/MM/DD HH:MM:SS;` timestamp; nothing otherwise.
pub uninterp spec fn lease_end_seconds(s: Seq<u8>) -> Option<i64>;

/// Relies on chrono's `NaiveDateTime::parse_from_str` with format
/// `%Y/%m/%d %H:%M:%S;` followed by `and_utc().timestamp()`: the parsed
/// instant in whole seconds. The result is a function of the text alone.
#[verifier::external_body]
fn parse_lease_end(s: &Vec<u8>) -> (r: Option<i64>)
    ensures
        r == lease_end_seconds(s@),
{
    let text = match std::str::from_utf8(s) {
        Ok(t) => t,
        Err(_) => return None,
    };
    match chrono::NaiveDateTime::parse_from_str(text, "%Y/%m/%d %H:%M:%S;") {
        Ok(dt) => Some(dt.and_utc().timestamp()),
        Err(_) => None,
    }
}

/// The bytes of the keyword `lease`.
pub open spec fn lease_kw() -> Seq<u8> {
    seq![108u8, 101u8, 97u8, 115u8, 101u8]
}

/// The bytes of the keyword `ends`.
pub open spec fn ends_kw() -> Seq<u8> {
    seq![101u8, 110u8, 100u8, 115u8]
}

/// The bytes of a block-closing line's trimmed text.
pub open spec fn closing_brace() -> Seq<u8> {
    seq![125u8]
}

/// Whether a line's first token is the given keyword.
pub open spec fn is_kw_line(l: Seq<u8>, kw: Seq<u8>) -> bool {
    tokens_of(l).len() > 0 && tokens_of(l)[0] == kw
}

fn lease_kw_vec() -> (v: Vec<u8>)
    ensures
        v@ == lease_kw(),
{
    let mut v: Vec<u8> = Vec::new();
    v.push(108);
    v.push(101);
    v.push(97);
    v.push(115);
    v.push(101);
    proof {
        assert(v@ =~= lease_kw());
    }
    v
}

fn ends_kw_vec() -> (v: Vec<u8>)
    ensures
        v@ == ends_kw(),
{
    let mut v: Vec<u8> = Vec::new();
    v.push(101);
    v.push(110);
    v.push(100);
    v.push(115);
    proof {
        assert(v@ =~= ends_kw());
    }
    v
}

fn closing_brace_vec() -> (v: Vec<u8>)
    ensures
        v@ == closing_brace(),
{
    let mut v: Vec<u8> = Vec::new();
    v.push(125);
    proof {
        assert(v@ =~= closing_brace());
    }
    v
}

/// The address a block names: the second token of its last `lease` line.
pub open spec fn block_ip(lines: Seq<Seq<u8>>) -> Option<Seq<u8>>
    decreases lines.len(),
{
    if lines.len() == 0 {
        None
    } else if is_kw_line(lines.last(), lease_kw()) {
        if tokens_of(lines.last()).len() > 1 {
            Some(tokens_of(lines.last())[1])
        } else {
            None
        }
    } else {
        block_ip(lines.drop_last())
    }
}

/// The expiry a block carries: from its last `ends` line, the text after
/// the keyword and the weekday number, joined with single spaces.
pub open spec fn block_end(lines: Seq<Seq<u8>>) -> Option<i64>
    decreases lines.len(),
{
    if lines.len() == 0 {
        None
    } else if is_kw_line(lines.last(), ends_kw()) {
        lease_end_seconds(
            join_sp(
                if tokens_of(lines.last()).len() >= 2 {
                    tokens_of(lines.last()).skip(2)
                } else {
                    Seq::empty()
                },
            ),
        )
    } else {
        block_end(lines.drop_last())
    }
}

/// The address a block contributes: present exactly when the block names
/// an address and carries an expiry strictly after `now`.
pub open spec fn block_live_ip(lines: Seq<Seq<u8>>, now: i64) -> Option<Seq<u8>> {
    match (block_ip(lines), block_end(lines)) {
        (Some(ip), Some(e)) => if e > now {
            Some(ip)
        } else {
            None
        },
        _ => None,
    }
}

/// Extract the live address of one lease block, if any.
pub fn process_lease_block(lines: &Vec<Vec<u8>>, now: i64) -> (r: Option<Vec<u8>>)
    ensures
        match r {
            Some(ip) => block_live_ip(views_of(lines@), now) == Some(ip@),
            None => block_live_ip(views_of(lines@), now) is None,
        },
{
    let lease_word = lease_kw_vec();
    let ends_word = ends_kw_vec();
    let mut ip: Option<Vec<u8>> = None;
    let mut ends: Option<i64> = None;
    let mut i: usize = 0;
    proof {
        assert(views_of(lines@).take(0) =~= Seq::<Seq<u8>>::empty());
    }
    while i < lines.len()
        invariant
            i <= lines.len(),
            lease_word@ == lease_kw(),
            ends_word@ == ends_kw(),
            view_opt(ip) == block_ip(views_of(lines@).take(i as int)),
            ends == block_end(views_of(lines@).take(i as int)),
        decreases lines.len() - i,
    {
        let toks = tokenize(&lines[i]);
        proof {
            let lv = views_of(lines@);
            assert(lv.take(i + 1).drop_last() =~= lv.take(i as int));
            assert(lv.take(i + 1).last() == lv[i as int]);
        }
        if toks.len() > 0 && bytes_eq(&toks[0], &lease_word) {
            if toks.len() > 1 {
                ip = Some(copy_bytes(&toks[1]));
            } else {
                ip = None;
            }
        } else if toks.len() > 0 && bytes_eq(&toks[0], &ends_word) {
            let joined = if toks.len() >= 2 {
                join_from(&toks, 2, 32)
            } else {
                Vec::new()
            };
            proof {
                if toks@.len() < 2 {
                    assert(join_sp(Seq::<Seq<u8>>::empty()) =~= Seq::<u8>::empty());
                }
            }
            ends = parse_lease_end(&joined);
        }
        i = i + 1;
    }
    proof {
        assert(views_of(lines@).take(lines@.len() as int) =~= views_of(lines@));
    }
    match (ip, ends) {
        (Some(found), Some(e)) => if e > now {
            Some(found)
        } else {
            None
        },
        _ => None,
    }
}

/// The addresses emitted while scanning a lease file's lines with the
/// current block accumulated in `cur`: a `lease` line starts the block
/// afresh, other non-blank lines extend it, and a line whose trimmed text
/// is `}` closes and evaluates it.
pub open spec fn lease_scan(lines: Seq<Seq<u8>>, cur: Seq<Seq<u8>>, now: i64) -> Seq<Seq<u8>>
    decreases lines.len(),
{
    if lines.len() == 0 {
        Seq::empty()
    } else {
        let l = lines[0];
        let cur1 = if is_kw_line(l, lease_kw()) {
            seq![l]
        } else if trim_of(l).len() != 0 {
            cur.push(l)
        } else {
            cur
        };
        if trim_of(l) == closing_brace() {
            match block_live_ip(cur1, now) {
                Some(ip) => seq![ip] + lease_scan(lines.skip(1), Seq::empty(), now),
                None => lease_scan(lines.skip(1), Seq::empty(), now),
            }
        } else {
            lease_scan(lines.skip(1), cur1, now)
        }
    }
}

/// The set of live addresses in a lease file's text at instant `now`.
pub open spec fn live_lease_ips(content: Seq<u8>, now: i64) -> Set<Seq<u8>> {
    lease_scan(lines_of(content), Seq::empty(), now).to_set()
}

fn contains_bytes(v: &Vec<Vec<u8>>, x: &Vec<u8>) -> (r: bool)
    ensures
        r == views_of(v@).contains(x@),
{
    let mut i: usize = 0;
    while i < v.len()
        invariant
            i <= v.len(),
            forall|m: int| 0 <= m < i ==> views_of(v@)[m] != x@,
        decreases v.len() - i,
    {
        if bytes_eq(&v[i], x) {
            proof {
                assert(views_of(v@)[i as int] == x@);
            }
            return true;
        }
        i = i + 1;
    }
    proof {
        assert(!views_of(v@).contains(x@));
    }
    false
}

/// Parse a lease file's text and return the addresses whose leases are
/// valid strictly after `now`, without duplicates.
pub fn parse_dhcp_leases(content: &Vec<u8>, now: i64) -> (ips: Vec<Vec<u8>>)
    ensures
        views_of(ips@).to_set() == live_lease_ips(content@, now),
        views_of(ips@).no_duplicates(),
{
    broadcast use vstd::seq_lib::group_seq_properties;

    let lines = split_lines(content);
    let lease_word = lease_kw_vec();
    let mut cur: Vec<Vec<u8>> = Vec::new();
    let mut ips: Vec<Vec<u8>> = Vec::new();
    let mut i: usize = 0;
    proof {
        assert(views_of(cur@) =~= Seq::<Seq<u8>>::empty());
        assert(views_of(ips@) =~= Seq::<Seq<u8>>::empty());
        assert(views_of(lines@).skip(0) =~= views_of(lines@));
        assert(views_of(ips@).to_set() + lease_scan(views_of(lines@), Seq::empty(), now).to_set()
            =~= lease_scan(lines_of(content@), Seq::empty(), now).to_set());
    }
    while i < lines.len()
        invariant
            i <= lines.len(),
            lease_word@ == lease_kw(),
            views_of(lines@) == lines_of(content@),
            views_of(ips@).no_duplicates(),
            live_lease_ips(content@, now) == views_of(ips@).to_set() + lease_scan(
                views_of(lines@).skip(i as int),
                views_of(cur@),
                now,
            ).to_set(),
        decreases lines.len() - i,
    {
        let ghost lv = views_of(lines@);
        let ghost cur0 = views_of(cur@);
        proof {
            assert(lv.skip(i as int)[0] == lv[i as int]);
            assert(lv.skip(i as int).skip(1) =~= lv.skip(i + 1));
        }
        let line = &lines[i];
        let toks = tokenize(line);
        let is_lease_line = toks.len() > 0 && bytes_eq(&toks[0], &lease_word);
        proof {
            if toks@.len() > 0 {
                assert(views_of(toks@)[0] == toks@[0]@);
            }
            assert(is_lease_line == is_kw_line(lv[i as int], lease_kw()));
        }
        let trimmed = trim(line);
        if is_lease_line {
            let mut fresh: Vec<Vec<u8>> = Vec::new();
            fresh.push(copy_bytes(line));
            proof {
                assert(views_of(fresh@) =~= seq![lv[i as int]]);
            }
            cur = fresh;
        } else if trimmed.len() != 0 {
            cur.push(copy_bytes(line));
            proof {
                assert(views_of(cur@) =~= cur0.push(lv[i as int]));
            }
        }
        let ghost cur1 = views_of(cur@);
        proof {
            assert(cur1 == (if is_kw_line(lv[i as int], lease_kw()) {
                seq![lv[i as int]]
            } else if trim_of(lv[i as int]).len() != 0 {
                cur0.push(lv[i as int])
            } else {
                cur0
            }));
        }
        let closes = trimmed.len() == 1 && trimmed[0] == 125;
        proof {
            if closes {
                assert(trimmed@ =~= closing_brace());
            } else if trimmed@ == closing_brace() {
                assert(trimmed@.len() == 1);
                assert(trimmed@[0] == 125);
                assert(false);
            }
            assert(closes == (trim_of(lv[i as int]) == closing_brace()));
        }
        if closes {
            let got = process_lease_block(&cur, now);
            let ghost ips0 = views_of(ips@);
            match got {
                Some(ip) => {
                    let ghost ipv = ip@;
                    let ghost scan_rest = lease_scan(lv.skip(i + 1), Seq::empty(), now);
                    proof {
                        assert(lease_scan(lv.skip(i as int), cur0, now) =~= seq![ipv]
                            + scan_rest);
                        vstd::seq_lib::seq_to_set_distributes_over_add::<Seq<u8>>(
                            seq![ipv],
                            scan_rest,
                        );
                        assert(seq![ipv][0] == ipv);
                        assert(seq![ipv].to_set() =~= Set::<Seq<u8>>::empty().insert(ipv));
                    }
                    if !contains_bytes(&ips, &ip) {
                        ips.push(ip);
                        proof {
                            assert(views_of(ips@) =~= ips0.push(ipv));
                            assert forall|x: Seq<u8>|
                                ips0.push(ipv).contains(x) == (ipv == x
                                    || ips0.contains(x)) by {
                                vstd::seq_lib::lemma_seq_contains_after_push(ips0, ipv, x);
                            }
                            assert(ips0.push(ipv).to_set() =~= ips0.to_set().insert(ipv));
                        }
                    } else {
                        proof {
                            assert(ips0.to_set().contains(ipv));
                        }
                    }
                    proof {
                        assert(views_of(ips@).to_set() + scan_rest.to_set() =~= ips0.to_set()
                            + lease_scan(lv.skip(i as int), cur0, now).to_set());
                    }
                },
                None => {
                    proof {
                        assert(lease_scan(lv.skip(i as int), cur0, now) == lease_scan(
                            lv.skip(i + 1),
                            Seq::empty(),
                            now,
                        ));
                    }
                },
            }
            cur = Vec::new();
            proof {
                assert(views_of(cur@) =~= Seq::<Seq<u8>>::empty());
            }
        } else {
            proof {
                assert(lease_scan(lv.skip(i as int), cur0, now) == lease_scan(
                    lv.skip(i + 1),
                    cur1,
                    now,
                ));
            }
        }
        i = i + 1;
    }
    ips
}

/// Parsing is deterministic: any two results for the same lease text at
/// the same instant denote the same address set.
pub proof fn lemma_lease_parse_deterministic(
    ips1: Seq<Seq<u8>>,
    ips2: Seq<Seq<u8>>,
    content: Seq<u8>,
    now: i64,
)
    requires
        ips1.to_set() == live_lease_ips(content, now),
        ips2.to_set() == live_lease_ips(content, now),
    ensures
        ips1.to_set() == ips2.to_set(),
{
}

/// A lease whose expiry equals `now` to the second is excluded: liveness
/// demands an expiry strictly greater than `now`.
pub proof fn lemma_lease_ending_at_now_excluded(lines: Seq<Seq<u8>>, now: i64)
    requires
        block_end(lines) == Some(now),
    ensures
        block_live_ip(lines, now) is None,
{
}

} // verus!
