//! Per-peer counters parsed out of the VPN driver's status dump: one
//! header line, then one line per peer with whitespace-separated
//! columns. The dump text and the clock reading are handed in by the
//! unverified driver; everything from there on is verified parsing.

use vstd::prelude::*;
use crate::num::{parse_dec_at, scan_dec};
use crate::Error;

verus! {

pub struct ClientMetrics {
    pub public_key: String,
    pub latest_handshake: u64,
    pub received_bytes: u128,
    pub sent_bytes: u128,
}

pub ghost struct ClientMetricsView {
    pub public_key: Seq<char>,
    pub latest_handshake: u64,
    pub received_bytes: u128,
    pub sent_bytes: u128,
}

impl View for ClientMetrics {
    type V = ClientMetricsView;

    open spec fn view(&self) -> ClientMetricsView {
        ClientMetricsView {
            public_key: self.public_key@,
            latest_handshake: self.latest_handshake,
            received_bytes: self.received_bytes,
            sent_bytes: self.sent_bytes,
        }
    }
}

pub open spec fn is_ws(c: char) -> bool {
    c == ' ' || c == '\t'
}

/// First position at or after `i` holding a non-blank character.
pub open spec fn skip_ws(s: Seq<char>, i: int) -> int
    decreases s.len() - i,
{
    if 0 <= i && i < s.len() && is_ws(s[i]) {
        skip_ws(s, i + 1)
    } else {
        i
    }
}

/// First position at or after `i` holding a blank character.
pub open spec fn token_end(s: Seq<char>, i: int) -> int
    decreases s.len() - i,
{
    if 0 <= i && i < s.len() && !is_ws(s[i]) {
        token_end(s, i + 1)
    } else {
        i
    }
}

/// First position at or after `i` holding a newline.
pub open spec fn line_end(s: Seq<char>, i: int) -> int
    decreases s.len() - i,
{
    if 0 <= i && i < s.len() && s[i] != '\n' {
        line_end(s, i + 1)
    } else {
        i
    }
}

pub proof fn lemma_line_end_bounds(s: Seq<char>, i: int)
    requires
        0 <= i <= s.len(),
    ensures
        i <= line_end(s, i) <= s.len(),
    decreases s.len() - i,
{
    if i < s.len() && s[i] != '\n' {
        lemma_line_end_bounds(s, i + 1);
    }
}

/// One dump line, reduced to the columns the report needs: the peer's
/// public key (column one), then the handshake timestamp and the two
/// byte counters (columns five to seven), each a plain decimal.
pub open spec fn spec_parse_line(s: Seq<char>) -> Option<(Seq<char>, int, int, int)> {
    let a0 = skip_ws(s, 0);
    let e0 = token_end(s, a0);
    if e0 == a0 {
        None
    } else {
        let a1 = skip_ws(s, e0);
        let e1 = token_end(s, a1);
        if e1 == a1 {
            None
        } else {
            let a2 = skip_ws(s, e1);
            let e2 = token_end(s, a2);
            if e2 == a2 {
                None
            } else {
                let a3 = skip_ws(s, e2);
                let e3 = token_end(s, a3);
                if e3 == a3 {
                    None
                } else {
                    let a4 = skip_ws(s, e3);
                    match parse_dec_at(s, a4, u64::MAX as int) {
                        None => None,
                        Some((v4, j4)) => if j4 < s.len() && !is_ws(s[j4]) {
                            None
                        } else {
                            let a5 = skip_ws(s, j4);
                            match parse_dec_at(s, a5, u128::MAX as int) {
                                None => None,
                                Some((v5, j5)) => if j5 < s.len() && !is_ws(s[j5]) {
                                    None
                                } else {
                                    let a6 = skip_ws(s, j5);
                                    match parse_dec_at(s, a6, u128::MAX as int) {
                                        None => None,
                                        Some((v6, j6)) => if j6 < s.len() && !is_ws(s[j6]) {
                                            None
                                        } else {
                                            Some((s.subrange(a0, e0), v4, v5, v6))
                                        },
                                    }
                                },
                            }
                        },
                    }
                }
            }
        }
    }
}

/// A line as `str::lines` yields it: without a trailing carriage
/// return.
pub open spec fn strip_cr(l: Seq<char>) -> Seq<char> {
    if l.len() > 0 && l.last() == '\r' {
        l.drop_last()
    } else {
        l
    }
}

/// The lines of `s` from position `i` on, split at newlines.
pub open spec fn lines_from(s: Seq<char>, i: int) -> Seq<Seq<char>>
    decreases s.len() - i,
    via lines_from_decreases
{
    if 0 <= i && i < s.len() {
        let e = line_end(s, i);
        if e >= s.len() {
            seq![strip_cr(s.subrange(i, s.len() as int))]
        } else {
            seq![strip_cr(s.subrange(i, e))] + lines_from(s, e + 1)
        }
    } else {
        Seq::empty()
    }
}

#[via_fn]
proof fn lines_from_decreases(s: Seq<char>, i: int) {
    if 0 <= i && i < s.len() {
        lemma_line_end_bounds(s, i);
    }
}

/// How many seconds ago a handshake happened, clamped at zero for a
/// timestamp from the future.
pub open spec fn spec_age(now: u64, ts: int) -> u64 {
    if 0 <= ts <= now {
        (now - ts) as u64
    } else {
        0
    }
}

/// The metrics of the given peer lines, or nothing if any line is
/// malformed.
pub open spec fn metrics_of_lines(ls: Seq<Seq<char>>, now: u64) -> Option<Seq<ClientMetricsView>>
    decreases ls.len(),
{
    if ls.len() == 0 {
        Some(Seq::empty())
    } else {
        match spec_parse_line(ls.first()) {
            None => None,
            Some((pk, h, rx, tx)) => match metrics_of_lines(ls.drop_first(), now) {
                None => None,
                Some(rest) => Some(
                    seq![
                        ClientMetricsView {
                            public_key: pk,
                            latest_handshake: spec_age(now, h),
                            received_bytes: rx as u128,
                            sent_bytes: tx as u128,
                        },
                    ] + rest,
                ),
            },
        }
    }
}

/// The whole dump: the header line is dropped, the rest are peers.
pub open spec fn spec_metrics(s: Seq<char>, now: u64) -> Option<Seq<ClientMetricsView>> {
    let ls = lines_from(s, 0);
    if ls.len() == 0 {
        Some(Seq::empty())
    } else {
        metrics_of_lines(ls.drop_first(), now)
    }
}

// --- executable ---

fn char_is_ws(c: char) -> (b: bool)
    ensures
        b == is_ws(c),
{
    c == ' ' || c == '\t'
}

fn skip_ws_exec(s: &str, n: usize, i: usize) -> (r: usize)
    requires
        n == s@.len(),
        i <= n,
    ensures
        r as int == skip_ws(s@, i as int),
        i <= r <= n,
{
    let mut j = i;
    loop
        invariant
            n == s@.len(),
            i <= j <= n,
            skip_ws(s@, i as int) == skip_ws(s@, j as int),
        decreases n - j,
    {
        if j >= n {
            return j;
        }
        if !char_is_ws(s.get_char(j)) {
            return j;
        }
        j += 1;
    }
}

fn token_end_exec(s: &str, n: usize, i: usize) -> (r: usize)
    requires
        n == s@.len(),
        i <= n,
    ensures
        r as int == token_end(s@, i as int),
        i <= r <= n,
{
    let mut j = i;
    loop
        invariant
            n == s@.len(),
            i <= j <= n,
            token_end(s@, i as int) == token_end(s@, j as int),
        decreases n - j,
    {
        if j >= n {
            return j;
        }
        if char_is_ws(s.get_char(j)) {
            return j;
        }
        j += 1;
    }
}

fn line_end_exec(s: &str, n: usize, i: usize) -> (r: usize)
    requires
        n == s@.len(),
        i <= n,
    ensures
        r as int == line_end(s@, i as int),
        i <= r <= n,
{
    let mut j = i;
    loop
        invariant
            n == s@.len(),
            i <= j <= n,
            line_end(s@, i as int) == line_end(s@, j as int),
        decreases n - j,
    {
        if j >= n {
            return j;
        }
        if s.get_char(j) == '\n' {
            return j;
        }
        j += 1;
    }
}

/// Parses one peer line of the dump: the public key and the three
/// counters the metrics report carries.
pub fn parse_line(line: &str) -> (r: Result<(String, u64, u128, u128), Error>)
    ensures
        match r {
            Ok(t) => spec_parse_line(line@) == Some((t.0@, t.1 as int, t.2 as int, t.3 as int)),
            Err(e) => e is ParseError && spec_parse_line(line@) is None,
        },
{
    let n = line.unicode_len();
    let a0 = skip_ws_exec(line, n, 0);
    let e0 = token_end_exec(line, n, a0);
    if e0 == a0 {
        return Err(Error::ParseError);
    }
    let a1 = skip_ws_exec(line, n, e0);
    let e1 = token_end_exec(line, n, a1);
    if e1 == a1 {
        return Err(Error::ParseError);
    }
    let a2 = skip_ws_exec(line, n, e1);
    let e2 = token_end_exec(line, n, a2);
    if e2 == a2 {
        return Err(Error::ParseError);
    }
    let a3 = skip_ws_exec(line, n, e2);
    let e3 = token_end_exec(line, n, a3);
    if e3 == a3 {
        return Err(Error::ParseError);
    }
    let a4 = skip_ws_exec(line, n, e3);
    let (v4, j4) = match scan_dec(line, n, a4, 0xFFFF_FFFF_FFFF_FFFF) {
        Some(v) => v,
        None => { return Err(Error::ParseError); },
    };
    if j4 < n && !char_is_ws(line.get_char(j4)) {
        return Err(Error::ParseError);
    }
    let a5 = skip_ws_exec(line, n, j4);
    let (v5, j5) = match scan_dec(line, n, a5, u128::MAX) {
        Some(v) => v,
        None => { return Err(Error::ParseError); },
    };
    if j5 < n && !char_is_ws(line.get_char(j5)) {
        return Err(Error::ParseError);
    }
    let a6 = skip_ws_exec(line, n, j5);
    let (v6, j6) = match scan_dec(line, n, a6, u128::MAX) {
        Some(v) => v,
        None => { return Err(Error::ParseError); },
    };
    if j6 < n && !char_is_ws(line.get_char(j6)) {
        return Err(Error::ParseError);
    }
    let pk = String::from_str(line.substring_char(a0, e0));
    Ok((pk, v4 as u64, v5, v6))
}

/// How many seconds lie between a handshake timestamp and the given
/// clock reading; a timestamp from the future counts as zero.
pub fn get_seconds_from_now(now: u64, timestamp: u64) -> (r: u64)
    ensures
        r == spec_age(now, timestamp as int),
{
    if now >= timestamp {
        now - timestamp
    } else {
        0
    }
}

/// Parses the driver's status dump into per-peer metrics: the header
/// line is dropped, every further line must be well formed.
pub fn get_metrics(dump: &str, now: u64) -> (r: Result<Vec<ClientMetrics>, Error>)
    ensures
        match r {
            Ok(v) => spec_metrics(dump@, now) == Some(v@.map_values(|m: ClientMetrics| m@)),
            Err(e) => e is ParseError && spec_metrics(dump@, now) is None,
        },
{
    let n = dump.unicode_len();
    if n == 0 {
        let out: Vec<ClientMetrics> = Vec::new();
        proof {
            assert(out@.map_values(|m: ClientMetrics| m@) =~= Seq::<ClientMetricsView>::empty());
        }
        return Ok(out);
    }
    // drop the header line
    let e0 = line_end_exec(dump, n, 0);
    let mut cur: usize = if e0 >= n {
        n
    } else {
        e0 + 1
    };
    let mut out: Vec<ClientMetrics> = Vec::new();
    proof {
        assert(lines_from(dump@, 0).drop_first() =~= lines_from(dump@, cur as int));
        assert(out@.map_values(|m: ClientMetrics| m@) =~= Seq::<ClientMetricsView>::empty());
    }
    loop
        invariant
            n == dump@.len(),
            cur <= n,
            n > 0,
            ({
                let full = spec_metrics(dump@, now);
                match metrics_of_lines(lines_from(dump@, cur as int), now) {
                    Some(t) => full == Some(out@.map_values(|m: ClientMetrics| m@) + t),
                    None => full is None,
                }
            }),
        decreases n - cur,
    {
        if cur >= n {
            proof {
                assert(lines_from(dump@, cur as int) =~= Seq::<Seq<char>>::empty());
                assert(out@.map_values(|m: ClientMetrics| m@) + Seq::<ClientMetricsView>::empty()
                    =~= out@.map_values(|m: ClientMetrics| m@));
            }
            return Ok(out);
        }
        let e = line_end_exec(dump, n, cur);
        let lend = if e > cur && dump.get_char(e - 1) == '\r' {
            e - 1
        } else {
            e
        };
        let line = dump.substring_char(cur, lend);
        proof {
            assert(line@ =~= strip_cr(dump@.subrange(cur as int, e as int))) by {
                if e > cur && dump@[e as int - 1] == '\r' {
                    assert(dump@.subrange(cur as int, e as int).last() == dump@[e as int - 1]);
                    assert(dump@.subrange(cur as int, e as int).drop_last() =~= dump@.subrange(
                        cur as int,
                        e as int - 1,
                    ));
                } else {
                    if dump@.subrange(cur as int, e as int).len() > 0 {
                        assert(dump@.subrange(cur as int, e as int).last() == dump@[e as int - 1]);
                    }
                }
            }
        }
        let parsed = match parse_line(line) {
            Ok(v) => v,
            Err(er) => { return Err(er); },
        };
        let (pk, h, rx, tx) = parsed;
        let age = get_seconds_from_now(now, h);
        let ghost out0 = out@;
        let m = ClientMetrics {
            public_key: pk,
            latest_handshake: age,
            received_bytes: rx,
            sent_bytes: tx,
        };
        let ghost mv = m@;
        out.push(m);
        proof {
            assert(out@.map_values(|m: ClientMetrics| m@) =~= out0.map_values(
                |m: ClientMetrics| m@,
            ).push(mv));
            let ls = lines_from(dump@, cur as int);
            if e >= n {
                assert(ls =~= seq![strip_cr(dump@.subrange(cur as int, n as int))]);
                assert(ls.drop_first() =~= Seq::<Seq<char>>::empty());
            } else {
                assert(ls.drop_first() =~= lines_from(dump@, e as int + 1));
            }
            let rt = metrics_of_lines(ls.drop_first(), now);
            if rt is Some {
                let t = rt.unwrap();
                assert(out0.map_values(|m: ClientMetrics| m@) + (seq![mv] + t) =~= out@.map_values(
                    |m: ClientMetrics| m@,
                ) + t);
            }
        }
        cur = if e >= n {
            n
        } else {
            e + 1
        };
    }
}

} // verus!
