//! The decisions behind the HTTP endpoints: which of two update times is
//! more recent, how market codes are named, which bars a K-line request
//! adjusts, and the date range of the benchmark indices.
use vstd::prelude::*;
use crate::text::{chars_of, has_prefix, has_prefix_at, owned, seq_lt, str_lt};

verus! {

/// The instant an RFC 3339 timestamp denotes, as whole seconds since the
/// Unix epoch and the nanoseconds within that second; `None` for text that
/// is not such a timestamp.
pub uninterp spec fn rfc3339_instant(s: Seq<char>) -> Option<(i64, u32)>;

/// Parses an RFC 3339 timestamp (`chrono::DateTime::parse_from_rfc3339`)
/// and gives its instant in UTC (`timestamp`, `timestamp_subsec_nanos`).
/// The contract names the result: it is a function of the text alone.
/// Two such instants compare as `chrono` compares the date-times, first by
/// the seconds and then by the nanoseconds.
#[verifier::external_body]
fn parse_rfc3339_instant(s: &str) -> (r: Option<(i64, u32)>)
    ensures
        r == rfc3339_instant(s@),
{
    match chrono::DateTime::parse_from_rfc3339(s) {
        Ok(t) => Some((t.timestamp(), t.timestamp_subsec_nanos())),
        Err(_) => None,
    }
}

/// `a` is a strictly later instant than `b`.
pub open spec fn instant_after(a: (i64, u32), b: (i64, u32)) -> bool {
    a.0 > b.0 || (a.0 == b.0 && a.1 > b.1)
}

/// The more recent of a file time `a` and a stored time `b`, given their
/// parsed instants: `a` when `b` is empty, `b` when `a` is missing or
/// empty; with both non-empty, `a` only when both parse and `a` is strictly
/// later, or when either does not parse.
pub open spec fn more_recent(
    a: Option<Seq<char>>,
    b: Seq<char>,
    ta: Option<(i64, u32)>,
    tb: Option<(i64, u32)>,
) -> Seq<char> {
    match a {
        None => b,
        Some(x) => if b.len() == 0 {
            x
        } else if x.len() == 0 {
            b
        } else {
            match (ta, tb) {
                (Some(p), Some(q)) => if instant_after(p, q) {
                    x
                } else {
                    b
                },
                _ => x,
            }
        },
    }
}

pub open spec fn opt_view(a: &Option<String>) -> Option<Seq<char>> {
    match a {
        Some(x) => Some(x@),
        None => None,
    }
}

/// The choice of `pick_more_recent` once the two times are parsed.
pub fn pick_by_instants(
    a: &Option<String>,
    b: &str,
    ta: Option<(i64, u32)>,
    tb: Option<(i64, u32)>,
) -> (r: String)
    ensures
        r@ == more_recent(opt_view(a), b@, ta, tb),
{
    match a {
        None => owned(b),
        Some(x) => {
            if b.is_empty() {
                owned(x.as_str())
            } else if x.as_str().is_empty() {
                owned(b)
            } else {
                match (ta, tb) {
                    (Some(p), Some(q)) => {
                        if p.0 > q.0 || (p.0 == q.0 && p.1 > q.1) {
                            owned(x.as_str())
                        } else {
                            owned(b)
                        }
                    },
                    _ => owned(x.as_str()),
                }
            }
        },
    }
}

/// The more recent of two RFC 3339 times, the non-empty one when the other
/// is missing or empty.
pub fn pick_more_recent(a: &Option<String>, b: &str) -> (r: String)
    ensures
        r@ == more_recent(
            opt_view(a),
            b@,
            match a {
                Some(x) => rfc3339_instant(x@),
                None => None,
            },
            rfc3339_instant(b@),
        ),
{
    let ta = match a {
        Some(x) => parse_rfc3339_instant(x.as_str()),
        None => None,
    };
    let tb = parse_rfc3339_instant(b);
    pick_by_instants(a, b, ta, tb)
}

/// The name of a stored market code: 0 `sz`, 1 `sh`, 2 `bj`, else
/// `unknown`.
pub open spec fn market_code_text(code: i64) -> Seq<char> {
    if code == 0 {
        "sz"@
    } else if code == 1 {
        "sh"@
    } else if code == 2 {
        "bj"@
    } else {
        "unknown"@
    }
}

pub fn market_code_name(code: i64) -> (r: &'static str)
    ensures
        r@ == market_code_text(code),
{
    match code {
        0 => "sz",
        1 => "sh",
        2 => "bj",
        _ => "unknown",
    }
}

/// An index rather than a stock: Shanghai codes from `00`, Shenzhen codes
/// from `39` (the market given in lower case).
pub open spec fn spec_is_index(market: Seq<char>, symbol: Seq<char>) -> bool {
    (market == "sh"@ && has_prefix(symbol, seq!['0', '0'])) || (market == "sz"@ && has_prefix(
        symbol,
        seq!['3', '9'],
    ))
}

pub fn is_index_symbol(market: &str, symbol: &str) -> (r: bool)
    ensures
        r == spec_is_index(market@, symbol@),
{
    let m = chars_of(market);
    let s = chars_of(symbol);
    let sh = chars_of("sh");
    let sz = chars_of("sz");
    let p00: Vec<char> = vec!['0', '0'];
    let p39: Vec<char> = vec!['3', '9'];
    proof {
        assert(s@.skip(0) =~= s@);
        assert(p00@ =~= seq!['0', '0']);
        assert(p39@ =~= seq!['3', '9']);
    }
    (crate::text::chars_eq(&m, &sh) && has_prefix_at(&s, 0, &p00)) || (crate::text::chars_eq(
        &m,
        &sz,
    ) && has_prefix_at(&s, 0, &p39))
}

/// How a K-line request treats prices.
#[derive(Clone, Copy, Debug, PartialEq, Eq, Structural)]
pub enum KlineAdjust {
    /// Forward-adjusted: scaled by the factor relative to the latest one.
    Forward,
    /// Backward-adjusted: scaled by the factor itself.
    Backward,
    /// Any other mode: prices kept, the volume given as a real number.
    Unscaled,
}

/// What a K-line request returns.
#[derive(Clone, Copy, Debug, PartialEq, Eq, Structural)]
pub enum KlinePlan {
    /// The bars as read (mode `none`, no mode, or an index).
    Raw,
    /// The bars adjusted by the stock's factors (raw again when it has
    /// none).
    Adjusted(KlineAdjust),
}

pub open spec fn spec_kline_plan(adjust: Option<Seq<char>>, is_index: bool) -> KlinePlan {
    let mode = match adjust {
        Some(a) => a,
        None => "none"@,
    };
    if mode == "none"@ || is_index {
        KlinePlan::Raw
    } else if mode == "forward"@ {
        KlinePlan::Adjusted(KlineAdjust::Forward)
    } else if mode == "backward"@ {
        KlinePlan::Adjusted(KlineAdjust::Backward)
    } else {
        KlinePlan::Adjusted(KlineAdjust::Unscaled)
    }
}

pub fn kline_plan(adjust: Option<&str>, is_index: bool) -> (r: KlinePlan)
    ensures
        r == spec_kline_plan(
            match adjust {
                Some(a) => Some(a@),
                None => None,
            },
            is_index,
        ),
{
    let mode = match adjust {
        Some(a) => chars_of(a),
        None => chars_of("none"),
    };
    let none = chars_of("none");
    let forward = chars_of("forward");
    let backward = chars_of("backward");
    if crate::text::chars_eq(&mode, &none) || is_index {
        KlinePlan::Raw
    } else if crate::text::chars_eq(&mode, &forward) {
        KlinePlan::Adjusted(KlineAdjust::Forward)
    } else if crate::text::chars_eq(&mode, &backward) {
        KlinePlan::Adjusted(KlineAdjust::Backward)
    } else {
        KlinePlan::Adjusted(KlineAdjust::Unscaled)
    }
}

/// The earlier (`earliest`) or later of a running bound and a new date,
/// the new date when there is no bound yet.
pub open spec fn widened(bound: Option<Seq<char>>, d: Seq<char>, earliest: bool) -> Seq<char> {
    match bound {
        None => d,
        Some(b) => if earliest {
            if seq_lt(d, b) {
                d
            } else {
                b
            }
        } else {
            if seq_lt(b, d) {
                d
            } else {
                b
            }
        },
    }
}

/// Widens the date range of the benchmark files by the date `d` of a first
/// bar (`earliest`) or a last bar.
pub fn widen_range(bound: &Option<String>, d: &str, earliest: bool) -> (r: String)
    ensures
        r@ == widened(opt_view(bound), d@, earliest),
{
    match bound {
        None => owned(d),
        Some(b) => {
            if earliest {
                if str_lt(d, b.as_str()) {
                    owned(d)
                } else {
                    owned(b.as_str())
                }
            } else {
                if str_lt(b.as_str(), d) {
                    owned(d)
                } else {
                    owned(b.as_str())
                }
            }
        },
    }
}

} // verus!
