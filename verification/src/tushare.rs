//! The plain-value side of the Tushare API: request dates without dashes,
//! response dates with them, and the trading-calendar entries.
use vstd::prelude::*;
use crate::text::{chars_of, owned, push_char, push_chars, push_str, string_of};
use crate::tdx::paths::{chars_in_bytes, chars_in_first_bytes, utf8_len, utf8_shorter_than};

verus! {

/// One day of the Tushare trading calendar.
#[derive(Clone, Debug)]
pub struct TradeCalDay {
    /// `YYYY-MM-DD` when Tushare gave an 8-byte date, as given otherwise.
    pub date: String,
    pub is_open: bool,
}

/// `s` without its `-` characters (`str::replace('-', "")`).
pub open spec fn without_dashes(s: Seq<char>) -> Seq<char>
    decreases s.len(),
{
    if s.len() == 0 {
        seq![]
    } else if s.last() == '-' {
        without_dashes(s.drop_last())
    } else {
        without_dashes(s.drop_last()).push(s.last())
    }
}

pub fn strip_dashes(s: &str) -> (r: String)
    ensures
        r@ == without_dashes(s@),
{
    let v = chars_of(s);
    let mut r = String::new();
    let mut i: usize = 0;
    while i < v.len()
        invariant
            0 <= i <= v.len(),
            v@ == s@,
            r@ == without_dashes(v@.take(i as int)),
        decreases v.len() - i,
    {
        proof {
            assert(v@.take(i + 1).drop_last() =~= v@.take(i as int));
        }
        if v[i] != '-' {
            push_char(&mut r, v[i]);
        }
        i = i + 1;
    }
    proof {
        assert(v@.take(v.len() as int) =~= v@);
    }
    r
}

/// The dates on which cutting at bytes 4 and 6 would split a character.
pub open spec fn compact_date_splits_char(s: Seq<char>) -> bool {
    utf8_len(s) == 8 && (chars_in_bytes(s, 4) < 0 || chars_in_bytes(s, 6) < 0)
}

/// Whether cutting `s` at bytes 4 and 6 would split a character (see
/// `compact_date_splits_char`); callers test this before reformatting a
/// response date.
pub fn compact_date_would_split(s: &str) -> (r: bool)
    ensures
        r == compact_date_splits_char(s@),
{
    let v = chars_of(s);
    proof {
        assert(v@.subrange(0, v.len() as int) =~= v@);
    }
    if utf8_shorter_than(&v, 0, v.len(), 8) || !utf8_shorter_than(&v, 0, v.len(), 9) {
        return false;
    }
    chars_in_first_bytes(&v, 4).is_none() || chars_in_first_bytes(&v, 6).is_none()
}

/// An 8-byte date `YYYYMMDD` as `YYYY-MM-DD` (bytes 0..4, 4..6, 6..8);
/// any other text unchanged.
pub open spec fn dashed_date(s: Seq<char>) -> Seq<char> {
    if utf8_len(s) == 8 {
        let a = chars_in_bytes(s, 4);
        let b = chars_in_bytes(s, 6);
        s.take(a) + seq!['-'] + s.subrange(a, b) + seq!['-'] + s.skip(b)
    } else {
        s
    }
}

proof fn lemma_chars_in_bytes_mono(s: Seq<char>, m: nat, n: nat)
    requires
        m <= n,
        chars_in_bytes(s, m) >= 0,
        chars_in_bytes(s, n) >= 0,
    ensures
        chars_in_bytes(s, m) <= chars_in_bytes(s, n) <= s.len(),
    decreases s.len(),
{
    if m > 0 {
        let w = crate::tdx::paths::char_width(s[0]);
        lemma_chars_in_bytes_mono(s.drop_first(), (m - w) as nat, (n - w) as nat);
    } else {
        lemma_chars_in_bytes_le_len(s, n);
    }
}

proof fn lemma_chars_in_bytes_le_len(s: Seq<char>, n: nat)
    requires
        chars_in_bytes(s, n) >= 0,
    ensures
        chars_in_bytes(s, n) <= s.len(),
    decreases s.len(),
{
    if n > 0 {
        let w = crate::tdx::paths::char_width(s[0]);
        lemma_chars_in_bytes_le_len(s.drop_first(), (n - w) as nat);
    }
}

/// `YYYYMMDD` to `YYYY-MM-DD` by byte positions, as the response dates are
/// read.
pub fn dash_compact_date(s: &str) -> (r: String)
    requires
        !compact_date_splits_char(s@),
    ensures
        r@ == dashed_date(s@),
{
    let v = chars_of(s);
    proof {
        assert(v@.subrange(0, v.len() as int) =~= v@);
    }
    if utf8_shorter_than(&v, 0, v.len(), 8) || !utf8_shorter_than(&v, 0, v.len(), 9) {
        return owned(s);
    }
    let a = match chars_in_first_bytes(&v, 4) {
        Some(k) => k,
        None => {
            return owned(s);
        },
    };
    let b = match chars_in_first_bytes(&v, 6) {
        Some(k) => k,
        None => {
            return owned(s);
        },
    };
    proof {
        lemma_chars_in_bytes_mono(v@, 4, 6);
    }
    let mut r = String::new();
    push_chars(&mut r, &v, 0, a);
    push_char(&mut r, '-');
    push_chars(&mut r, &v, a, b);
    push_char(&mut r, '-');
    push_chars(&mut r, &v, b, v.len());
    proof {
        assert(v@.subrange(0, a as int) =~= v@.take(a as int));
        assert(v@.subrange(b as int, v.len() as int) =~= v@.skip(b as int));
    }
    r
}

/// A calendar entry from the fields of a response item: the date (its
/// first field as text, empty when missing), dashed when it has 8 bytes;
/// open when the second field is the integer 1.
pub fn trade_cal_day(date_field: Option<&str>, open_field: Option<i64>) -> (r: TradeCalDay)
    requires
        date_field matches Some(d) ==> !compact_date_splits_char(d@),
    ensures
        r.date@ == dashed_date(
            match date_field {
                Some(d) => d@,
                None => Seq::<char>::empty(),
            },
        ),
        r.is_open == (open_field == Some(1i64)),
{
    let date = match date_field {
        Some(d) => dash_compact_date(d),
        None => {
            let r = String::new();
            proof {
                assert(utf8_len(r@) == 0);
            }
            r
        },
    };
    let is_open = match open_field {
        Some(x) => x == 1,
        None => false,
    };
    TradeCalDay { date, is_open }
}

/// `tushare error: {msg}`, with `unknown` when the response had no message.
pub fn tushare_error_message(msg: Option<&str>) -> (r: String)
    ensures
        r@ == "tushare error: "@ + match msg {
            Some(m) => m@,
            None => "unknown"@,
        },
{
    let mut r = String::new();
    push_str(&mut r, "tushare error: ");
    match msg {
        Some(m) => push_str(&mut r, m),
        None => push_str(&mut r, "unknown"),
    }
    r
}

} // verus!
