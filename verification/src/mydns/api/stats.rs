//! The time window of the statistics history endpoint.
use vstd::prelude::*;
use crate::mydns::error::ApiError;
use crate::names::push_str;

verus! {

broadcast use vstd::string::group_string_axioms;

/// The window shown when `from` is not given: one hour, in nanoseconds.
pub const DEFAULT_HISTORY_RANGE_NANOS: i128 = 3_600_000_000_000;

/// The longest window served: 24 hours, in nanoseconds.
pub const MAX_HISTORY_RANGE_NANOS: i128 = 86_400_000_000_000;

/// The query of `GET /api/v1/stats/history`: inclusive UTC bounds in RFC 3339.
#[derive(Debug)]
pub struct HistoryQuery {
    pub from: Option<String>,
    pub to: Option<String>,
}

/// Names what `chrono::DateTime::parse_from_rfc3339` makes of `text`, as
/// the whole seconds since the Unix epoch (`timestamp`) and the nanoseconds
/// past them (`timestamp_subsec_nanos`), or `None` when it fails.
pub uninterp spec fn rfc3339_instant(text: Seq<char>) -> Option<(i64, u32)>;

/// Calls `chrono::DateTime::parse_from_rfc3339` and reads the time as UTC
/// seconds and nanoseconds; on failure returns chrono's error text, of
/// which nothing is stated.
#[verifier::external_body]
fn parse_rfc3339(text: &str) -> (r: Result<(i64, u32), String>)
    ensures
        match r {
            Ok(t) => rfc3339_instant(text@) == Some(t),
            Err(_) => rfc3339_instant(text@) is None,
        },
{
    match chrono::DateTime::parse_from_rfc3339(text) {
        Ok(t) => Ok((t.timestamp(), t.timestamp_subsec_nanos())),
        Err(e) => Err(e.to_string()),
    }
}

/// A time as nanoseconds since the Unix epoch.
pub open spec fn instant_nanos(t: (i64, u32)) -> int {
    t.0 * 1_000_000_000 + t.1
}

/// The nanoseconds since the Unix epoch of a time given as whole seconds
/// and the nanoseconds past them.
pub fn instant_to_nanos(t: (i64, u32)) -> (n: i128)
    ensures
        n == instant_nanos(t),
{
    (t.0 as i128) * 1_000_000_000 + (t.1 as i128)
}

/// The nanoseconds of a parsed time, if `text` parsed.
pub open spec fn rfc3339_nanos(text: Seq<char>) -> Option<i128> {
    match rfc3339_instant(text) {
        Some(t) => Some(instant_nanos(t) as i128),
        None => None,
    }
}

/// The start of the message refusing a malformed timestamp of `field`.
pub open spec fn bad_timestamp_prefix(field: Seq<char>, value: Seq<char>) -> Seq<char> {
    "invalid '"@ + field + "' timestamp '"@ + value + "': "@
}

/// Parses an optional timestamp of the query field `field`: absent is
/// `None`; malformed is a bad request naming the field and the value.
pub fn parse_timestamp(value: Option<&str>, field: &str) -> (r: Result<Option<i128>, ApiError>)
    ensures
        match value {
            None => r matches Ok(t) && t is None,
            Some(v) => match rfc3339_nanos(v@) {
                Some(m) => r matches Ok(t) && t == Some(m),
                None => r matches Err(ApiError::BadRequest(msg)) && msg@.len() >= bad_timestamp_prefix(
                    field@,
                    v@,
                ).len() && msg@.take(bad_timestamp_prefix(field@, v@).len() as int) == bad_timestamp_prefix(
                    field@,
                    v@,
                ),
            },
        },
{
    match value {
        None => Ok(None),
        Some(v) => match parse_rfc3339(v) {
            Ok(t) => Ok(Some(instant_to_nanos(t))),
            Err(detail) => {
                let mut msg = String::new();
                push_str(&mut msg, "invalid '");
                push_str(&mut msg, field);
                push_str(&mut msg, "' timestamp '");
                push_str(&mut msg, v);
                push_str(&mut msg, "': ");
                let ghost prefix = msg@;
                push_str(&mut msg, detail.as_str());
                assert(prefix =~= bad_timestamp_prefix(field@, v@));
                assert(msg@.take(prefix.len() as int) =~= prefix);
                Err(ApiError::BadRequest(msg))
            },
        },
    }
}

/// `a - b` for a non-negative `b`, kept within the range of `i128`.
pub open spec fn sub_sat(a: i128, b: i128) -> i128 {
    if a - b < i128::MIN {
        i128::MIN
    } else {
        (a - b) as i128
    }
}

/// `a - b` for a non-negative `b`, kept within the range of `i128`.
fn sub_saturating(a: i128, b: i128) -> (r: i128)
    requires
        b >= 0,
    ensures
        r == sub_sat(a, b),
{
    if a < i128::MIN + b {
        i128::MIN
    } else {
        a - b
    }
}

/// The window served for the bounds `from` and `to` (parsed, when given) at
/// server time `now`: `to` defaults to `now` and is capped at it; `from`
/// defaults to an hour before `to`; a window longer than a day is cut to the
/// last day before `to`; `None` when `from` is after `to`.
pub open spec fn history_window_spec(from: Option<i128>, to: Option<i128>, now: i128) -> Option<(i128, i128)> {
    let t0 = match to {
        Some(t) => t,
        None => now,
    };
    let t = if t0 > now {
        now
    } else {
        t0
    };
    let f0 = match from {
        Some(f) => f,
        None => sub_sat(t, DEFAULT_HISTORY_RANGE_NANOS),
    };
    if f0 > t {
        None
    } else if t - f0 > MAX_HISTORY_RANGE_NANOS {
        Some((sub_sat(t, MAX_HISTORY_RANGE_NANOS), t))
    } else {
        Some((f0, t))
    }
}

/// The window of a history query at server time `now` (nanoseconds since
/// the Unix epoch):
/// `to` is parsed first, then `from`; a malformed bound or `from` after `to`
/// is a bad request.
pub fn history_window(query: &HistoryQuery, now: i128) -> (r: Result<(i128, i128), ApiError>)
    ensures
        match (
            match query.to {
                Some(t) => Some(rfc3339_nanos(t@)),
                None => None,
            },
            match query.from {
                Some(f) => Some(rfc3339_nanos(f@)),
                None => None,
            },
        ) {
            (Some(None), _) => r matches Err(ApiError::BadRequest(_)),
            (_, Some(None)) => r matches Err(ApiError::BadRequest(_)),
            (t, f) => {
                let to = match t {
                    Some(x) => x,
                    None => None,
                };
                let from = match f {
                    Some(x) => x,
                    None => None,
                };
                match history_window_spec(from, to, now) {
                    Some(w) => r == Ok::<(i128, i128), ApiError>(w),
                    None => r matches Err(ApiError::BadRequest(m)) && m@ == "history 'from' must not be after 'to'"@,
                }
            },
        },
{
    let to_arg: Option<&str> = match &query.to {
        Some(t) => Some(t.as_str()),
        None => None,
    };
    let to = match parse_timestamp(to_arg, "to") {
        Ok(t) => t,
        Err(e) => {
            return Err(e);
        },
    };
    let from_arg: Option<&str> = match &query.from {
        Some(f) => Some(f.as_str()),
        None => None,
    };
    let from = match parse_timestamp(from_arg, "from") {
        Ok(f) => f,
        Err(e) => {
            return Err(e);
        },
    };
    match window_of(from, to, now) {
        Some(w) => Ok(w),
        None => Err(ApiError::BadRequest("history 'from' must not be after 'to'".to_owned())),
    }
}

/// The window served for parsed bounds `from` and `to` at server time
/// `now`, all in nanoseconds: `None` when `from` is after `to`.
pub fn window_of(from: Option<i128>, to: Option<i128>, now: i128) -> (w: Option<(i128, i128)>)
    ensures
        w == history_window_spec(from, to, now),
{
    let t0 = match to {
        Some(t) => t,
        None => now,
    };
    let t = if t0 > now {
        now
    } else {
        t0
    };
    let f0 = match from {
        Some(f) => f,
        None => sub_saturating(t, DEFAULT_HISTORY_RANGE_NANOS),
    };
    if f0 > t {
        return None;
    }
    let too_long = if t >= i128::MIN + MAX_HISTORY_RANGE_NANOS {
        f0 < t - MAX_HISTORY_RANGE_NANOS
    } else {
        false
    };
    if too_long {
        Some((sub_saturating(t, MAX_HISTORY_RANGE_NANOS), t))
    } else {
        Some((f0, t))
    }
}

/// The served window never starts after it ends, never ends after the
/// server time, and never spans more than a day.
pub proof fn lemma_window_bounded(from: Option<i128>, to: Option<i128>, now: i128)
    ensures
        history_window_spec(from, to, now) matches Some(w) ==> w.0 <= w.1 && w.1 <= now && w.1 - w.0
            <= MAX_HISTORY_RANGE_NANOS,
{
}

/// Without `from`, the window is the hour that ends at its end: the end is
/// `to` capped at the server time (the server time when `to` is absent),
/// and the start lies exactly one hour before it (or at the smallest time
/// when that hour reaches below it).
pub proof fn lemma_default_window_is_last_hour(to: Option<i128>, now: i128)
    ensures
        ({
            let t = match to {
                Some(x) => if x < now {
                    x
                } else {
                    now
                },
                None => now,
            };
            &&& t - 3_600_000_000_000 >= i128::MIN ==> history_window_spec(None, to, now) == Some(
                ((t - 3_600_000_000_000) as i128, t),
            )
            &&& t - 3_600_000_000_000 < i128::MIN ==> history_window_spec(None, to, now) == Some((i128::MIN, t))
        }),
{
}

/// With both bounds given (`to` already capped at the server time): the
/// window is refused exactly when `from` is after `to`; otherwise it ends at
/// `to` and starts at `from`, or a day before `to` when `from` is further
/// back than that.
pub proof fn lemma_given_window(f: i128, t: i128, now: i128)
    requires
        t <= now,
    ensures
        history_window_spec(Some(f), Some(t), now) is None <==> f > t,
        f <= t && t - f <= 86_400_000_000_000 ==> history_window_spec(Some(f), Some(t), now) == Some((f, t)),
        f <= t && t - f > 86_400_000_000_000 && t - 86_400_000_000_000 >= i128::MIN ==> history_window_spec(
            Some(f),
            Some(t),
            now,
        ) == Some(((t - 86_400_000_000_000) as i128, t)),
{
}

/// A `to` after the server time is the server time.
pub proof fn lemma_future_to_is_now(from: Option<i128>, t: i128, now: i128)
    requires
        t > now,
    ensures
        history_window_spec(from, Some(t), now) == history_window_spec(from, Some(now), now),
{
}

} // verus!
