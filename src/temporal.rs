//! Time references in free-text queries ("3 weeks ago", "yesterday"),
//! turned into windows of epoch milliseconds.
//!
//! The query is read in ASCII lower case. A count is a run of ASCII digits;
//! between the count, the unit and "ago" any whitespace may stand, or none.
//! The phrases are tried in a fixed order and the first that matches wins.
use vstd::prelude::*;
use crate::number::{decimal, decimal_value, is_digit, parse_decimal, to_decimal};
use crate::text::{
    chars_of, contains, contains_exec, is_space, is_space_exec, lower, occurs_at,
    occurs_at_exec, string_of, to_lower,
};

verus! {

/// Milliseconds in one day.
pub const DAY_MS: u64 = 86400000;

/// Milliseconds in one week.
pub const WEEK_MS: u64 = 604800000;

/// A time reference recognised in a query.
#[derive(Debug, Clone, Copy, PartialEq, Eq, Structural)]
pub enum TimePhrase {
    WeeksAgo(u64),
    DaysAgo(u64),
    LastWeek,
    LastMonth,
    Yesterday,
}

/// Temporal context parsed from a query.
#[derive(Debug)]
pub struct TemporalContext {
    pub time_reference: String,
    pub start_timestamp: Option<u64>,
    pub end_timestamp: Option<u64>,
}

/// End of the run of digits that starts at `i`.
pub open spec fn digits_end(q: Seq<char>, i: int) -> int
    decreases q.len() - i,
{
    if 0 <= i < q.len() && is_digit(q[i]) {
        digits_end(q, i + 1)
    } else {
        i
    }
}

/// End of the run of whitespace that starts at `i`.
pub open spec fn spaces_end(q: Seq<char>, i: int) -> int
    decreases q.len() - i,
{
    if 0 <= i < q.len() && is_space(q[i]) {
        spaces_end(q, i + 1)
    } else {
        i
    }
}

/// From position `k`: whitespace, `unit`, an optional plural "s", whitespace, "ago".
pub open spec fn unit_ago_at(q: Seq<char>, k: int, unit: Seq<char>) -> bool {
    let a = spaces_end(q, k);
    let b = a + unit.len();
    let c = if 0 <= b < q.len() && q[b] == 's' {
        b + 1
    } else {
        b
    };
    occurs_at(q, a, unit) && occurs_at(q, spaces_end(q, c), "ago"@)
}

/// A count followed by `unit` and "ago" starts at `i`.
pub open spec fn count_ago_at(q: Seq<char>, i: int, unit: Seq<char>) -> bool {
    0 <= i < q.len() && is_digit(q[i]) && unit_ago_at(q, digits_end(q, i), unit)
}

/// The leftmost position at or after `i` where a count followed by `unit` and "ago" starts.
pub open spec fn first_count_ago(q: Seq<char>, i: int, unit: Seq<char>) -> Option<int>
    decreases q.len() - i,
{
    if i < 0 || i >= q.len() {
        None
    } else if count_ago_at(q, i, unit) {
        Some(i)
    } else {
        first_count_ago(q, i + 1, unit)
    }
}

/// The count of the leftmost "<count> <unit>(s) ago" in `q`, when there is one
/// and it fits in a `u64`.
pub open spec fn count_ago(q: Seq<char>, unit: Seq<char>) -> Option<u64> {
    match first_count_ago(q, 0, unit) {
        Some(i) => {
            let v = decimal_value(q.subrange(i, digits_end(q, i)));
            if v <= u64::MAX {
                Some(v as u64)
            } else {
                None
            }
        },
        None => None,
    }
}

/// The time reference of a query, by the first matching phrase.
pub open spec fn phrase_of(query: Seq<char>) -> Option<TimePhrase> {
    let q = lower(query);
    if count_ago(q, "week"@) is Some {
        Some(TimePhrase::WeeksAgo(count_ago(q, "week"@)->0))
    } else if count_ago(q, "day"@) is Some {
        Some(TimePhrase::DaysAgo(count_ago(q, "day"@)->0))
    } else if contains(q, "last week"@) {
        Some(TimePhrase::LastWeek)
    } else if contains(q, "last month"@) {
        Some(TimePhrase::LastMonth)
    } else if contains(q, "yesterday"@) {
        Some(TimePhrase::Yesterday)
    } else {
        None
    }
}

/// `x` held within the range of `u64`.
pub open spec fn clamp(x: int) -> u64 {
    if x < 0 {
        0
    } else if x > u64::MAX {
        u64::MAX
    } else {
        x as u64
    }
}

/// Window start, before clamping, of a phrase at time `now`.
pub open spec fn window_start(p: TimePhrase, now: int) -> int {
    match p {
        TimePhrase::WeeksAgo(n) => now - (n + 1) * WEEK_MS,
        TimePhrase::DaysAgo(n) => now - (n + 1) * DAY_MS,
        TimePhrase::LastWeek => now - 2 * WEEK_MS,
        TimePhrase::LastMonth => now - 30 * DAY_MS,
        TimePhrase::Yesterday => now - 2 * DAY_MS,
    }
}

/// Window end, before clamping, of a phrase at time `now`.
pub open spec fn window_end(p: TimePhrase, now: int) -> int {
    match p {
        TimePhrase::WeeksAgo(n) => now - (n - 1) * WEEK_MS,
        TimePhrase::DaysAgo(n) => now - (n - 1) * DAY_MS,
        TimePhrase::LastWeek => now - WEEK_MS,
        TimePhrase::LastMonth => now,
        TimePhrase::Yesterday => now - DAY_MS,
    }
}

/// The label under which a phrase is reported.
pub open spec fn phrase_label(p: TimePhrase) -> Seq<char> {
    match p {
        TimePhrase::WeeksAgo(n) => decimal(n as nat) + " weeks ago"@,
        TimePhrase::DaysAgo(n) => decimal(n as nat) + " days ago"@,
        TimePhrase::LastWeek => "last week"@,
        TimePhrase::LastMonth => "last month"@,
        TimePhrase::Yesterday => "yesterday"@,
    }
}

/// The context reported for a query at time `now`.
pub open spec fn temporal_matches(query: Seq<char>, now: u64, r: Option<TemporalContext>) -> bool {
    match phrase_of(query) {
        None => r is None,
        Some(p) => r is Some && r->0.time_reference@ == phrase_label(p)
            && r->0.start_timestamp == Some(clamp(window_start(p, now as int)))
            && r->0.end_timestamp == Some(clamp(window_end(p, now as int))),
    }
}

fn skip_spaces(q: &Vec<char>, i: usize) -> (r: usize)
    requires
        i <= q.len(),
    ensures
        r as int == spaces_end(q@, i as int),
        r <= q.len(),
    decreases q.len() - i,
{
    if i < q.len() && is_space_exec(q[i]) {
        skip_spaces(q, i + 1)
    } else {
        i
    }
}

fn skip_digits(q: &Vec<char>, i: usize) -> (r: usize)
    requires
        i <= q.len(),
    ensures
        r as int == digits_end(q@, i as int),
        i <= r <= q.len(),
        forall|k: int| i <= k < r ==> is_digit(q@[k]),
    decreases q.len() - i,
{
    if i < q.len() && '0' <= q[i] && q[i] <= '9' {
        skip_digits(q, i + 1)
    } else {
        i
    }
}

fn unit_ago_at_exec(q: &Vec<char>, k: usize, unit: &Vec<char>, ago: &Vec<char>) -> (r: bool)
    requires
        k <= q.len(),
        ago@ == "ago"@,
    ensures
        r == unit_ago_at(q@, k as int, unit@),
{
    let a = skip_spaces(q, k);
    if !occurs_at_exec(q, a, unit) {
        return false;
    }
    let b = a + unit.len();
    let c = if b < q.len() && q[b] == 's' {
        b + 1
    } else {
        b
    };
    let e = skip_spaces(q, c);
    occurs_at_exec(q, e, ago)
}

fn count_ago_exec(q: &Vec<char>, unit: &Vec<char>) -> (r: Option<u64>)
    ensures
        r == count_ago(q@, unit@),
{
    let ago = chars_of("ago");
    let mut i: usize = 0;
    while i < q.len()
        invariant
            i <= q.len(),
            ago@ == "ago"@,
            first_count_ago(q@, 0, unit@) == first_count_ago(q@, i as int, unit@),
        decreases q.len() - i,
    {
        if '0' <= q[i] && q[i] <= '9' {
            let e = skip_digits(q, i);
            if unit_ago_at_exec(q, e, unit, &ago) {
                let mut digits: Vec<char> = Vec::new();
                let mut k: usize = i;
                while k < e
                    invariant
                        i <= k <= e <= q.len(),
                        digits@ == q@.subrange(i as int, k as int),
                    decreases e - k,
                {
                    digits.push(q[k]);
                    k += 1;
                    assert(digits@ =~= q@.subrange(i as int, k as int));
                }
                return parse_decimal(&digits);
            }
        }
        i += 1;
    }
    None
}

/// Recognises the time reference of a query.
pub fn phrase_of_exec(query: &str) -> (r: Option<TimePhrase>)
    ensures
        r == phrase_of(query@),
{
    let raw = chars_of(query);
    let q = to_lower(&raw);
    let week = chars_of("week");
    if let Some(n) = count_ago_exec(&q, &week) {
        return Some(TimePhrase::WeeksAgo(n));
    }
    let day = chars_of("day");
    if let Some(n) = count_ago_exec(&q, &day) {
        return Some(TimePhrase::DaysAgo(n));
    }
    if contains_exec(&q, &chars_of("last week")) {
        return Some(TimePhrase::LastWeek);
    }
    if contains_exec(&q, &chars_of("last month")) {
        return Some(TimePhrase::LastMonth);
    }
    if contains_exec(&q, &chars_of("yesterday")) {
        return Some(TimePhrase::Yesterday);
    }
    None
}

fn clamp_exec(x: i128) -> (r: u64)
    ensures
        r == clamp(x as int),
{
    if x < 0 {
        0
    } else if x > u64::MAX as i128 {
        u64::MAX
    } else {
        x as u64
    }
}

/// The window of a phrase at time `now`, as (start, end).
pub fn phrase_window(p: TimePhrase, now: u64) -> (r: (u64, u64))
    ensures
        r.0 == clamp(window_start(p, now as int)),
        r.1 == clamp(window_end(p, now as int)),
{
    let t = now as i128;
    let w = WEEK_MS as i128;
    let d = DAY_MS as i128;
    match p {
        TimePhrase::WeeksAgo(n) => {
            let m = n as i128;
            assert(0 <= m * w <= 0x1_0000_0000_0000_0000 * 604800000) by (nonlinear_arith)
                requires
                    0 <= m <= u64::MAX,
                    w == 604800000,
            ;
            (clamp_exec(t - (m + 1) * w), clamp_exec(t - (m - 1) * w))
        },
        TimePhrase::DaysAgo(n) => {
            let m = n as i128;
            assert(0 <= m * d <= 0x1_0000_0000_0000_0000 * 86400000) by (nonlinear_arith)
                requires
                    0 <= m <= u64::MAX,
                    d == 86400000,
            ;
            (clamp_exec(t - (m + 1) * d), clamp_exec(t - (m - 1) * d))
        },
        TimePhrase::LastWeek => (clamp_exec(t - 2 * w), clamp_exec(t - w)),
        TimePhrase::LastMonth => (clamp_exec(t - 30 * d), clamp_exec(t)),
        TimePhrase::Yesterday => (clamp_exec(t - 2 * d), clamp_exec(t - d)),
    }
}

/// The label under which a phrase is reported ("3 weeks ago", "yesterday").
pub fn phrase_label_exec(p: TimePhrase) -> (r: String)
    ensures
        r@ == phrase_label(p),
{
    match p {
        TimePhrase::WeeksAgo(n) => {
            let mut v = to_decimal(n);
            let tail = chars_of(" weeks ago");
            v.append(&mut tail.clone());
            assert(v@ == decimal(n as nat) + " weeks ago"@);
            string_of(&v)
        },
        TimePhrase::DaysAgo(n) => {
            let mut v = to_decimal(n);
            let tail = chars_of(" days ago");
            v.append(&mut tail.clone());
            string_of(&v)
        },
        TimePhrase::LastWeek => string_of(&chars_of("last week")),
        TimePhrase::LastMonth => string_of(&chars_of("last month")),
        TimePhrase::Yesterday => string_of(&chars_of("yesterday")),
    }
}

/// Parses the time reference of `query` at time `now` (epoch milliseconds).
/// `None` when no phrase matches: the caller then applies no time filter.
pub fn parse_temporal_context(query: &str, now: u64) -> (r: Option<TemporalContext>)
    ensures
        temporal_matches(query@, now, r),
{
    match phrase_of_exec(query) {
        None => None,
        Some(p) => {
            let (start, end) = phrase_window(p, now);
            Some(TemporalContext {
                time_reference: phrase_label_exec(p),
                start_timestamp: Some(start),
                end_timestamp: Some(end),
            })
        },
    }
}

} // verus!
