//! The relative-time formatter: turns the distance between a past timestamp
//! and "now" into a short human string, integer-truncated at each
//! granularity. Two presentation styles share one algorithm: long unit words
//! ("1 min", "3 days") and compact suffixes ("1m", "3d").

use vstd::prelude::*;
use crate::strutil::{chars_to_string, push_dec_u128, push_str_chars, spec_dec_nat};

verus! {

/// The rendered distance from `past` to `now`, both in epoch seconds.
/// Durations under one minute (including negative ones) read "now"; then
/// whole minutes, hours and days, each truncated.
pub open spec fn spec_rel_time(past: int, now: int, long: bool) -> Seq<char> {
    let diff = now - past;
    if diff < 60 {
        "now"@
    } else if diff < 120 {
        if long {
            "1 min"@
        } else {
            "1m"@
        }
    } else if diff < 3600 {
        spec_dec_nat(diff / 60) + if long {
            " min"@
        } else {
            "m"@
        }
    } else if diff < 7200 {
        if long {
            "1 hr"@
        } else {
            "1h"@
        }
    } else if diff < 86400 {
        spec_dec_nat(diff / 3600) + if long {
            " hr"@
        } else {
            "h"@
        }
    } else if diff < 172800 {
        if long {
            "1 day"@
        } else {
            "1d"@
        }
    } else {
        spec_dec_nat(diff / 86400) + if long {
            " days"@
        } else {
            "d"@
        }
    }
}

/// Renders the distance from `past` to `now` in the chosen style.
pub fn rel_time(past: i64, now: i64, long: bool) -> (r: String)
    ensures
        r@ == spec_rel_time(past as int, now as int, long),
{
    let diff: i128 = (now as i128) - (past as i128);
    if diff < 60 {
        return "now".to_owned();
    }
    if diff < 120 {
        return if long {
            "1 min".to_owned()
        } else {
            "1m".to_owned()
        };
    }
    let d: u128 = diff as u128;
    let mut out: Vec<char> = Vec::new();
    if diff < 3600 {
        push_dec_u128(&mut out, d / 60);
        push_str_chars(&mut out, if long { " min" } else { "m" });
    } else if diff < 7200 {
        push_str_chars(&mut out, if long { "1 hr" } else { "1h" });
    } else if diff < 86400 {
        push_dec_u128(&mut out, d / 3600);
        push_str_chars(&mut out, if long { " hr" } else { "h" });
    } else if diff < 172800 {
        push_str_chars(&mut out, if long { "1 day" } else { "1d" });
    } else {
        push_dec_u128(&mut out, d / 86400);
        push_str_chars(&mut out, if long { " days" } else { "d" });
    }
    chars_to_string(&out)
}

/// The distance from `time` to `now` in the compact style.
pub fn time_diff_in_words(time: i64, now: i64) -> (r: String)
    ensures
        r@ == spec_rel_time(time as int, now as int, false),
{
    rel_time(time, now, false)
}

} // verus!
