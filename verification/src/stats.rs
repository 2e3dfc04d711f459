//! The statistics engine: pure folds over a route's tick history in append
//! order, the two per-route display summaries, and the gym-wide aggregate
//! send counts. Nothing here is ever stored; everything is recomputed on
//! demand from the raw ticks.

use vstd::prelude::*;
use crate::reltime::{rel_time, spec_rel_time};
use crate::route::{Route, RouteId, Tick, TickKind};
use crate::strutil::{chars_to_string, push_dec_u128, push_str_chars, spec_dec_nat};

verus! {

/// Ascents seen in `ts`.
pub open spec fn spec_num_ascents(ts: Seq<Tick>) -> int
    decreases ts.len(),
{
    if ts.len() == 0 {
        0
    } else {
        spec_num_ascents(ts.drop_last()) + if ts.last().kind == TickKind::Ascent {
            1int
        } else {
            0int
        }
    }
}

/// Attempts seen in `ts`.
pub open spec fn spec_num_attempts(ts: Seq<Tick>) -> int
    decreases ts.len(),
{
    if ts.len() == 0 {
        0
    } else {
        spec_num_attempts(ts.drop_last()) + if ts.last().kind == TickKind::Attempt {
            1int
        } else {
            0int
        }
    }
}

/// Attempts counted strictly before the first ascent.
pub open spec fn spec_attempts_to_ascent(ts: Seq<Tick>) -> int
    decreases ts.len(),
{
    if ts.len() == 0 {
        0
    } else if spec_num_ascents(ts.drop_last()) > 0 {
        spec_attempts_to_ascent(ts.drop_last())
    } else if ts.last().kind == TickKind::Attempt {
        spec_attempts_to_ascent(ts.drop_last()) + 1
    } else {
        spec_attempts_to_ascent(ts.drop_last())
    }
}

/// Attempts counted since the most recent ascent, reset by every ascent.
pub open spec fn spec_attempts_since_ascent(ts: Seq<Tick>) -> int
    decreases ts.len(),
{
    if ts.len() == 0 {
        0
    } else if ts.last().kind == TickKind::Ascent {
        0
    } else {
        spec_attempts_since_ascent(ts.drop_last()) + if spec_num_ascents(ts.drop_last()) > 0 {
            1int
        } else {
            0int
        }
    }
}

/// Timestamp of the last ascent, 0 when none was seen.
pub open spec fn spec_last_ascent_ts(ts: Seq<Tick>) -> i64
    decreases ts.len(),
{
    if ts.len() == 0 {
        0
    } else if ts.last().kind == TickKind::Ascent {
        ts.last().timestamp
    } else {
        spec_last_ascent_ts(ts.drop_last())
    }
}

/// Timestamp of the last attempt, 0 when none was seen.
pub open spec fn spec_last_attempt_ts(ts: Seq<Tick>) -> i64
    decreases ts.len(),
{
    if ts.len() == 0 {
        0
    } else if ts.last().kind == TickKind::Attempt {
        ts.last().timestamp
    } else {
        spec_last_attempt_ts(ts.drop_last())
    }
}

/// The fold state a route's tick history reduces to.
pub struct RouteStats {
    pub num_ascents: usize,
    pub num_attempts: usize,
    pub attempts_to_ascent: usize,
    pub attempts_since_ascent: usize,
    pub last_ascent_ts: i64,
    pub last_attempt_ts: i64,
}

/// Folds a tick history, in append order, into its statistics.
pub fn route_stats(ticks: &Vec<Tick>) -> (s: RouteStats)
    ensures
        s.num_ascents as int == spec_num_ascents(ticks@),
        s.num_attempts as int == spec_num_attempts(ticks@),
        s.attempts_to_ascent as int == spec_attempts_to_ascent(ticks@),
        s.attempts_since_ascent as int == spec_attempts_since_ascent(ticks@),
        s.last_ascent_ts == spec_last_ascent_ts(ticks@),
        s.last_attempt_ts == spec_last_attempt_ts(ticks@),
{
    let mut s = RouteStats {
        num_ascents: 0,
        num_attempts: 0,
        attempts_to_ascent: 0,
        attempts_since_ascent: 0,
        last_ascent_ts: 0,
        last_attempt_ts: 0,
    };
    let mut i: usize = 0;
    while i < ticks.len()
        invariant
            i <= ticks.len(),
            s.num_ascents as int == spec_num_ascents(ticks@.subrange(0, i as int)),
            s.num_attempts as int == spec_num_attempts(ticks@.subrange(0, i as int)),
            s.attempts_to_ascent as int == spec_attempts_to_ascent(ticks@.subrange(0, i as int)),
            s.attempts_since_ascent as int == spec_attempts_since_ascent(
                ticks@.subrange(0, i as int),
            ),
            s.last_ascent_ts == spec_last_ascent_ts(ticks@.subrange(0, i as int)),
            s.last_attempt_ts == spec_last_attempt_ts(ticks@.subrange(0, i as int)),
            s.num_ascents <= i,
            s.num_attempts <= i,
            s.attempts_to_ascent <= i,
            s.attempts_since_ascent <= i,
        decreases ticks.len() - i,
    {
        let t = ticks[i];
        proof {
            assert(ticks@.subrange(0, i + 1).drop_last() =~= ticks@.subrange(0, i as int));
            assert(ticks@.subrange(0, i + 1).last() == ticks@[i as int]);
        }
        match t.kind {
            TickKind::Ascent => {
                s.last_ascent_ts = t.timestamp;
                s.num_ascents = s.num_ascents + 1;
                s.attempts_since_ascent = 0;
            },
            TickKind::Attempt => {
                s.last_attempt_ts = t.timestamp;
                s.num_attempts = s.num_attempts + 1;
                if s.num_ascents > 0 {
                    s.attempts_since_ascent = s.attempts_since_ascent + 1;
                } else {
                    s.attempts_to_ascent = s.attempts_to_ascent + 1;
                }
            },
        }
        i += 1;
    }
    proof {
        assert(ticks@.subrange(0, ticks@.len() as int) =~= ticks@);
    }
    s
}

/// The ascent summary string a tick history displays as.
pub open spec fn spec_ascent_summary(ts: Seq<Tick>) -> Seq<char> {
    if spec_num_ascents(ts) == 0 {
        "unsent"@
    } else if spec_attempts_to_ascent(ts) == 0 {
        spec_dec_nat(spec_num_ascents(ts)) + " snd (flsh)"@
    } else {
        spec_dec_nat(spec_num_ascents(ts)) + " snd ("@ + spec_dec_nat(
            spec_attempts_to_ascent(ts),
        ) + " att)"@
    }
}

/// Renders the ascent summary: "unsent" for no ascents, a flash marker for
/// an ascent with zero prior attempts, otherwise the attempts-to-send count.
pub fn ascent_summary(ticks: &Vec<Tick>) -> (r: String)
    ensures
        r@ == spec_ascent_summary(ticks@),
{
    let s = route_stats(ticks);
    if s.num_ascents == 0 {
        return "unsent".to_owned();
    }
    let mut out: Vec<char> = Vec::new();
    push_dec_u128(&mut out, s.num_ascents as u128);
    if s.attempts_to_ascent == 0 {
        push_str_chars(&mut out, " snd (flsh)");
    } else {
        push_str_chars(&mut out, " snd (");
        push_dec_u128(&mut out, s.attempts_to_ascent as u128);
        push_str_chars(&mut out, " att)");
    }
    chars_to_string(&out)
}

/// The attempt summary string a tick history displays as against `now`.
pub open spec fn spec_attempt_summary(ts: Seq<Tick>, now: int) -> Seq<char> {
    if spec_num_attempts(ts) == 0 && spec_num_ascents(ts) == 0 {
        "unattempted"@
    } else if spec_num_ascents(ts) == 0 {
        spec_dec_nat(spec_num_attempts(ts)) + " att (att "@ + spec_rel_time(
            spec_last_attempt_ts(ts) as int,
            now,
            false,
        ) + ")"@
    } else if spec_last_ascent_ts(ts) >= spec_last_attempt_ts(ts) {
        spec_dec_nat(spec_attempts_since_ascent(ts)) + " att (snd "@ + spec_rel_time(
            spec_last_ascent_ts(ts) as int,
            now,
            false,
        ) + ")"@
    } else {
        spec_dec_nat(spec_attempts_since_ascent(ts)) + " att (att "@ + spec_rel_time(
            spec_last_attempt_ts(ts) as int,
            now,
            false,
        ) + ")"@
    }
}

/// Renders the attempt summary: "unattempted" for an empty history, else the
/// attempt count with the relative time of the most telling event.
pub fn attempt_summary(ticks: &Vec<Tick>, now: i64) -> (r: String)
    ensures
        r@ == spec_attempt_summary(ticks@, now as int),
{
    let s = route_stats(ticks);
    if s.num_attempts == 0 && s.num_ascents == 0 {
        return "unattempted".to_owned();
    }
    let mut out: Vec<char> = Vec::new();
    if s.num_ascents == 0 {
        push_dec_u128(&mut out, s.num_attempts as u128);
        push_str_chars(&mut out, " att (att ");
        let t = rel_time(s.last_attempt_ts, now, false);
        push_str_chars(&mut out, t.as_str());
    } else if s.last_ascent_ts >= s.last_attempt_ts {
        push_dec_u128(&mut out, s.attempts_since_ascent as u128);
        push_str_chars(&mut out, " att (snd ");
        let t = rel_time(s.last_ascent_ts, now, false);
        push_str_chars(&mut out, t.as_str());
    } else {
        push_dec_u128(&mut out, s.attempts_since_ascent as u128);
        push_str_chars(&mut out, " att (att ");
        let t = rel_time(s.last_attempt_ts, now, false);
        push_str_chars(&mut out, t.as_str());
    }
    push_str_chars(&mut out, ")");
    chars_to_string(&out)
}

/// Ascents in `ts` dated strictly after `midnight`.
pub open spec fn spec_ascents_after(ts: Seq<Tick>, midnight: int) -> int
    decreases ts.len(),
{
    if ts.len() == 0 {
        0
    } else {
        spec_ascents_after(ts.drop_last(), midnight) + if ts.last().kind == TickKind::Ascent
            && ts.last().timestamp > midnight {
            1int
        } else {
            0int
        }
    }
}

/// Counts the ascents in one history dated strictly after `midnight`.
pub fn ascents_after(ticks: &Vec<Tick>, midnight: i64) -> (n: usize)
    ensures
        n as int == spec_ascents_after(ticks@, midnight as int),
        n <= ticks@.len(),
{
    let mut n: usize = 0;
    let mut i: usize = 0;
    while i < ticks.len()
        invariant
            i <= ticks.len(),
            n <= i,
            n as int == spec_ascents_after(ticks@.subrange(0, i as int), midnight as int),
        decreases ticks.len() - i,
    {
        let t = ticks[i];
        proof {
            assert(ticks@.subrange(0, i + 1).drop_last() =~= ticks@.subrange(0, i as int));
            assert(ticks@.subrange(0, i + 1).last() == ticks@[i as int]);
        }
        match t.kind {
            TickKind::Ascent => {
                if t.timestamp > midnight {
                    n = n + 1;
                }
            },
            TickKind::Attempt => {},
        }
        i += 1;
    }
    proof {
        assert(ticks@.subrange(0, ticks@.len() as int) =~= ticks@);
    }
    n
}

/// Counts all ascents in one history.
pub fn ascent_count(ticks: &Vec<Tick>) -> (n: usize)
    ensures
        n as int == spec_num_ascents(ticks@),
        n <= ticks@.len(),
{
    let mut n: usize = 0;
    let mut i: usize = 0;
    while i < ticks.len()
        invariant
            i <= ticks.len(),
            n <= i,
            n as int == spec_num_ascents(ticks@.subrange(0, i as int)),
        decreases ticks.len() - i,
    {
        let t = ticks[i];
        proof {
            assert(ticks@.subrange(0, i + 1).drop_last() =~= ticks@.subrange(0, i as int));
            assert(ticks@.subrange(0, i + 1).last() == ticks@[i as int]);
        }
        match t.kind {
            TickKind::Ascent => {
                n = n + 1;
            },
            TickKind::Attempt => {},
        }
        i += 1;
    }
    proof {
        assert(ticks@.subrange(0, ticks@.len() as int) =~= ticks@);
    }
    n
}

/// Ascent ticks across every route of the ledger, retired routes included,
/// dated strictly after `midnight`.
pub open spec fn spec_sends_today(rs: Seq<(RouteId, crate::route::RouteView)>, midnight: int) -> int
    decreases rs.len(),
{
    if rs.len() == 0 {
        0
    } else {
        spec_sends_today(rs.drop_last(), midnight) + spec_ascents_after(
            rs.last().1.ticks,
            midnight,
        )
    }
}

/// All ascent ticks across every route of the ledger, retired included.
pub open spec fn spec_sends_total(rs: Seq<(RouteId, crate::route::RouteView)>) -> int
    decreases rs.len(),
{
    if rs.len() == 0 {
        0
    } else {
        spec_sends_total(rs.drop_last()) + spec_num_ascents(rs.last().1.ticks)
    }
}

} // verus!
