//! Calendar dates as they appear in TDX `.day` files: a `u32` holding
//! `year * 10000 + month * 100 + day`.
//!
//! Validity, day differences, ISO formatting and ISO parsing come from
//! `chrono`'s `NaiveDate`; the wrappers below state what `chrono` documents of
//! them over the plain `(year, month, day)` triple.
use vstd::prelude::*;
use crate::text::{
    all_digits, chars_eq, chars_of, decimal, digit_value, digits_value, is_ascii_digit,
    lemma_decimal_len_exact, lemma_decimal_len_log, lemma_decimal_value, lemma_digits_value_lt,
    lemma_zero_padded_value, pow10, zero_padded,
};
use chrono::Datelike;

verus! {

pub open spec fn is_leap_year(y: int) -> bool {
    y % 4 == 0 && (y % 100 != 0 || y % 400 == 0)
}

pub open spec fn days_in_month(y: int, m: int) -> int {
    if m == 2 {
        if is_leap_year(y) {
            29
        } else {
            28
        }
    } else if m == 4 || m == 6 || m == 9 || m == 11 {
        30
    } else {
        31
    }
}

/// The calendar dates that `chrono::NaiveDate` can represent
/// (years `-262143..=262142` of the proleptic Gregorian calendar).
pub open spec fn is_valid_ymd(y: int, m: int, d: int) -> bool {
    &&& -262143 <= y <= 262142
    &&& 1 <= m <= 12
    &&& 1 <= d <= days_in_month(y, m)
}

pub open spec fn raw_year(raw: u32) -> int {
    (raw / 10000) as int
}

pub open spec fn raw_month(raw: u32) -> int {
    ((raw % 10000) / 100) as int
}

pub open spec fn raw_day(raw: u32) -> int {
    (raw % 100) as int
}

/// A packed `yyyymmdd` value that names a real calendar date.
pub open spec fn is_valid_raw(raw: u32) -> bool {
    is_valid_ymd(raw_year(raw), raw_month(raw), raw_day(raw))
}

/// Number of days from 0000-01-01 (proleptic Gregorian) to the given date,
/// counting 0000-01-01 as day 1 (zero and below for dates before it): the
/// divisions count the leap years between year 0 and `y`.
pub open spec fn day_number(y: int, m: int, d: int) -> int {
    let before_year = 365 * y + (y + 3) / 4 - (y + 99) / 100 + (y + 399) / 400;
    let cumulative: int = if m == 1 {
        0
    } else if m == 2 {
        31
    } else if m == 3 {
        59
    } else if m == 4 {
        90
    } else if m == 5 {
        120
    } else if m == 6 {
        151
    } else if m == 7 {
        181
    } else if m == 8 {
        212
    } else if m == 9 {
        243
    } else if m == 10 {
        273
    } else if m == 11 {
        304
    } else {
        334
    };
    let leap_day = if m > 2 && is_leap_year(y) {
        1int
    } else {
        0int
    };
    before_year + cumulative + leap_day + d
}

/// `chrono`'s `%Y-%m-%d` rendering of a date: the year zero-padded to four
/// digits, with a leading `+` above 9999 and a leading `-` below zero; month
/// and day zero-padded to two digits.
pub open spec fn iso_text(y: int, m: int, d: int) -> Seq<char> {
    let year = if y < 0 {
        seq!['-'] + zero_padded((-y) as nat, 4)
    } else if y <= 9999 {
        zero_padded(y as nat, 4)
    } else {
        seq!['+'] + decimal(y as nat)
    };
    year + seq!['-'] + zero_padded(m as nat, 2) + seq!['-'] + zero_padded(d as nat, 2)
}

/// Calls `chrono::NaiveDate::from_ymd_opt` and reports whether it returned a
/// date; `chrono` documents `None` exactly for out-of-range years, invalid
/// months and days that do not exist in the month.
#[verifier::external_body]
fn chrono_ymd_exists(y: i32, m: u32, d: u32) -> (r: bool)
    ensures
        r == is_valid_ymd(y as int, m as int, d as int),
{
    chrono::NaiveDate::from_ymd_opt(y, m, d).is_some()
}

/// Calls `chrono`'s `NaiveDate - NaiveDate` and `TimeDelta::num_days`: the
/// signed number of days from the second date to the first, which is the
/// difference of their day numbers.
#[verifier::external_body]
fn chrono_days_between(a: (i32, u32, u32), b: (i32, u32, u32)) -> (r: i64)
    requires
        is_valid_ymd(a.0 as int, a.1 as int, a.2 as int),
        is_valid_ymd(b.0 as int, b.1 as int, b.2 as int),
    ensures
        r as int == day_number(a.0 as int, a.1 as int, a.2 as int) - day_number(
            b.0 as int,
            b.1 as int,
            b.2 as int,
        ),
{
    let da = chrono::NaiveDate::from_ymd_opt(a.0, a.1, a.2).unwrap();
    let db = chrono::NaiveDate::from_ymd_opt(b.0, b.1, b.2).unwrap();
    (da - db).num_days()
}

/// Calls `chrono`'s `NaiveDate::format("%Y-%m-%d")` and renders it to a
/// `String`; for years `0..=9999` this is the zero-padded `YYYY-MM-DD`, for
/// other years `chrono` writes an explicit sign (`+` or `-`) before the year
/// zero-padded to four digits.
#[verifier::external_body]
fn chrono_format_iso(y: i32, m: u32, d: u32) -> (r: String)
    requires
        is_valid_ymd(y as int, m as int, d as int),
    ensures
        r@ == iso_text(y as int, m as int, d as int),
{
    chrono::NaiveDate::from_ymd_opt(y, m, d).unwrap().format("%Y-%m-%d").to_string()
}

/// What `chrono::NaiveDate::parse_from_str(s, "%Y-%m-%d")` gives for the text
/// `s`, as `(year, month, day)`.
pub uninterp spec fn chrono_parse_iso(s: Seq<char>) -> Option<(int, int, int)>;

/// Calls `chrono::NaiveDate::parse_from_str(s, "%Y-%m-%d")`.  The result is
/// the named `chrono_parse_iso(s)`; a parsed date is always a real date.  The
/// exact text `chrono` accepts (field widths, signs, white space) is left to
/// that name.
#[verifier::external_body]
fn chrono_parse_iso_exec(s: &str) -> (r: Option<(i32, u32, u32)>)
    ensures
        match r {
            Some(t) => chrono_parse_iso(s@) == Some((t.0 as int, t.1 as int, t.2 as int))
                && is_valid_ymd(t.0 as int, t.1 as int, t.2 as int),
            None => chrono_parse_iso(s@) is None,
        },
{
    match chrono::NaiveDate::parse_from_str(s, "%Y-%m-%d") {
        Ok(d) => Some((d.year(), d.month(), d.day())),
        Err(_) => None,
    }
}

/// A calendar date with a non-negative year, stored as `yyyymmdd`.
///
/// The order of the packed value is the chronological order.
#[derive(Clone, Copy, PartialEq, Eq, Structural, Debug)]
pub struct TradeDate {
    pub(crate) ymd: u32,
}

impl View for TradeDate {
    type V = u32;

    /// The packed value; every `TradeDate` built by this crate holds a valid
    /// one, and the view reads any other bit pattern as 0001-01-01.
    closed spec fn view(&self) -> u32 {
        if is_valid_raw(self.ymd) {
            self.ymd
        } else {
            10101
        }
    }
}

impl TradeDate {
    #[verifier::type_invariant]
    spec fn wf(self) -> bool {
        is_valid_raw(self.ymd)
    }

    pub proof fn lemma_valid(self)
        ensures
            is_valid_raw(self@),
    {
    }

    /// The date packed as `yyyymmdd`, or `None` when that is not a real date.
    pub fn from_raw(raw: u32) -> (r: Option<TradeDate>)
        ensures
            r is Some <==> is_valid_raw(raw),
            r matches Some(d) ==> d@ == raw,
    {
        let y: u32 = raw / 10000;
        let m: u32 = (raw % 10000) / 100;
        let d: u32 = raw % 100;
        if chrono_ymd_exists(y as i32, m, d) {
            Some(TradeDate { ymd: raw })
        } else {
            None
        }
    }

    /// The date `y-m-d`, or `None` when it does not exist or its year is
    /// negative.
    pub fn from_ymd(y: i32, m: u32, d: u32) -> (r: Option<TradeDate>)
        ensures
            r is Some <==> (y >= 0 && is_valid_ymd(y as int, m as int, d as int)),
            r matches Some(t) ==> t.year() == y && t.month() == m && t.day() == d,
    {
        if y < 0 || m > 12 || d > 31 {
            return None;
        }
        if !chrono_ymd_exists(y, m, d) {
            return None;
        }
        let raw: u32 = (y as u32) * 10000 + m * 100 + d;
        assert(raw_year(raw) == y && raw_month(raw) == m && raw_day(raw) == d) by (
        nonlinear_arith)
            requires
                raw == (y as u32) * 10000 + m * 100 + d,
                0 <= y <= 262142,
                1 <= m <= 12,
                1 <= d <= 31,
        ;
        Some(TradeDate { ymd: raw })
    }

    pub open spec fn year(self) -> int {
        raw_year(self@)
    }

    pub open spec fn month(self) -> int {
        raw_month(self@)
    }

    pub open spec fn day(self) -> int {
        raw_day(self@)
    }

    /// The packed `yyyymmdd` value.
    pub fn raw(&self) -> (r: u32)
        ensures
            r == self@,
    {
        proof {
            use_type_invariant(self);
        }
        self.ymd
    }

    pub fn year_exec(&self) -> (r: i32)
        ensures
            r == self.year(),
    {
        proof {
            use_type_invariant(self);
        }
        (self.ymd / 10000) as i32
    }

    pub fn month_exec(&self) -> (r: u32)
        ensures
            r == self.month(),
    {
        proof {
            use_type_invariant(self);
        }
        (self.ymd % 10000) / 100
    }

    pub fn day_exec(&self) -> (r: u32)
        ensures
            r == self.day(),
    {
        proof {
            use_type_invariant(self);
        }
        self.ymd % 100
    }

    /// `self` is on or before `other`.
    pub fn le(&self, other: &TradeDate) -> (r: bool)
        ensures
            r == (self@ <= other@),
    {
        proof {
            use_type_invariant(self);
            use_type_invariant(other);
        }
        self.ymd <= other.ymd
    }

    /// `self` is strictly before `other`.
    pub fn lt(&self, other: &TradeDate) -> (r: bool)
        ensures
            r == (self@ < other@),
    {
        proof {
            use_type_invariant(self);
            use_type_invariant(other);
        }
        self.ymd < other.ymd
    }

    /// Signed number of days from `earlier` to `self`
    /// (`(self - earlier).num_days()` in `chrono`).
    pub fn days_since(&self, earlier: &TradeDate) -> (r: i64)
        ensures
            r as int == day_number(self.year(), self.month(), self.day()) - day_number(
                earlier.year(),
                earlier.month(),
                earlier.day(),
            ),
    {
        proof {
            use_type_invariant(self);
            use_type_invariant(earlier);
        }
        let a = (self.year_exec(), self.month_exec(), self.day_exec());
        let b = (earlier.year_exec(), earlier.month_exec(), earlier.day_exec());
        chrono_days_between(a, b)
    }

    /// The date as `YYYY-MM-DD`.
    pub fn format_iso(&self) -> (r: String)
        ensures
            r@ == iso_text(self.year(), self.month(), self.day()),
    {
        proof {
            use_type_invariant(self);
        }
        chrono_format_iso(self.year_exec(), self.month_exec(), self.day_exec())
    }
}

/// The chronological key of a date: `year * 10000 + month * 100 + day`.  For
/// a date with a non-negative year it is the packed `yyyymmdd` value.
pub open spec fn date_key(y: int, m: int, d: int) -> int {
    y * 10000 + m * 100 + d
}

/// Any date that `chrono::NaiveDate` holds, negative years included: the
/// dates read from the trade calendar's text.
#[derive(Clone, Copy, PartialEq, Eq, Structural, Debug)]
pub struct CalendarDay {
    y: i32,
    m: u32,
    d: u32,
}

impl CalendarDay {
    #[verifier::type_invariant]
    spec fn wf(self) -> bool {
        is_valid_ymd(self.y as int, self.m as int, self.d as int)
    }

    pub closed spec fn year(self) -> int {
        self.y as int
    }

    pub closed spec fn month(self) -> int {
        self.m as int
    }

    pub closed spec fn day(self) -> int {
        self.d as int
    }

    pub open spec fn key(self) -> int {
        date_key(self.year(), self.month(), self.day())
    }

    /// The date `y-m-d`, or `None` when `chrono` holds no such date.
    pub fn from_ymd(y: i32, m: u32, d: u32) -> (r: Option<CalendarDay>)
        ensures
            r is Some <==> is_valid_ymd(y as int, m as int, d as int),
            r matches Some(c) ==> c.year() == y && c.month() == m && c.day() == d,
    {
        if chrono_ymd_exists(y, m, d) {
            Some(CalendarDay { y, m, d })
        } else {
            None
        }
    }

    /// The same date as a `.day`-file date.
    pub fn from_trade_date(t: TradeDate) -> (r: CalendarDay)
        ensures
            r.year() == t.year() && r.month() == t.month() && r.day() == t.day(),
            r.key() == t@,
    {
        proof {
            use_type_invariant(t);
            let x = t@;
            assert(x == raw_year(x) * 10000 + raw_month(x) * 100 + raw_day(x)) by (nonlinear_arith);
        }
        CalendarDay { y: t.year_exec(), m: t.month_exec(), d: t.day_exec() }
    }

    /// `(year, month, day)`.
    pub fn ymd(&self) -> (r: (i32, u32, u32))
        ensures
            r.0 == self.year() && r.1 == self.month() && r.2 == self.day(),
    {
        (self.y, self.m, self.d)
    }

    /// `self` is on or before the `.day`-file date `t`.
    pub fn on_or_before(&self, t: &TradeDate) -> (r: bool)
        ensures
            r == (self.key() <= t@),
    {
        proof {
            use_type_invariant(self);
            use_type_invariant(t);
            let x = t@;
            assert(x == raw_year(x) * 10000 + raw_month(x) * 100 + raw_day(x)) by (nonlinear_arith);
        }
        let ty = t.year_exec();
        let tm = t.month_exec();
        let td = t.day_exec();
        self.y < ty || (self.y == ty && (self.m < tm || (self.m == tm && self.d <= td)))
    }

    /// Signed number of days from the `.day`-file date `earlier` to `self`
    /// (`(self - earlier).num_days()` in `chrono`).
    pub fn days_since(&self, earlier: &TradeDate) -> (r: i64)
        ensures
            r as int == day_number(self.year(), self.month(), self.day()) - day_number(
                earlier.year(),
                earlier.month(),
                earlier.day(),
            ),
    {
        proof {
            use_type_invariant(self);
            use_type_invariant(earlier);
        }
        let b = (earlier.year_exec(), earlier.month_exec(), earlier.day_exec());
        chrono_days_between((self.y, self.m, self.d), b)
    }

    /// The date as `chrono` writes it with `%Y-%m-%d`.
    pub fn format_iso(&self) -> (r: String)
        ensures
            r@ == iso_text(self.year(), self.month(), self.day()),
    {
        proof {
            use_type_invariant(self);
        }
        chrono_format_iso(self.y, self.m, self.d)
    }
}

/// The date written as `YYYY-MM-DD` (`format_date` of the metadata models).
pub fn format_date(d: TradeDate) -> (r: String)
    ensures
        r@ == iso_text(d.year(), d.month(), d.day()),
{
    d.format_iso()
}

/// The date that `chrono` reads from `s` in the `%Y-%m-%d` layout.
pub fn parse_date(s: &str) -> (r: Option<CalendarDay>)
    ensures
        match chrono_parse_iso(s@) {
            Some(t) => r matches Some(d) && d.year() == t.0 && d.month() == t.1 && d.day() == t.2,
            None => r is None,
        },
{
    match chrono_parse_iso_exec(s) {
        Some(t) => CalendarDay::from_ymd(t.0, t.1, t.2),
        None => None,
    }
}

/// The order of packed dates is the chronological order of
/// `(year, month, day)`.
pub proof fn law_packed_order_is_chronological(a: TradeDate, b: TradeDate)
    ensures
        (a@ < b@) <==> (a.year() < b.year() || (a.year() == b.year() && (a.month() < b.month() || (
        a.month() == b.month() && a.day() < b.day())))),
{
    let x = a@;
    let y = b@;
    assert(x == raw_year(x) * 10000 + raw_month(x) * 100 + raw_day(x)) by (nonlinear_arith);
    assert(y == raw_year(y) * 10000 + raw_month(y) * 100 + raw_day(y)) by (nonlinear_arith);
    assert(0 <= raw_month(x) < 100 && 0 <= raw_day(x) < 100);
    assert(0 <= raw_month(y) < 100 && 0 <= raw_day(y) < 100);
    assert((x < y) <==> (raw_year(x) < raw_year(y) || (raw_year(x) == raw_year(y) && (raw_month(
        x,
    ) < raw_month(y) || (raw_month(x) == raw_month(y) && raw_day(x) < raw_day(y)))))) by (
    nonlinear_arith)
        requires
            x == raw_year(x) * 10000 + raw_month(x) * 100 + raw_day(x),
            y == raw_year(y) * 10000 + raw_month(y) * 100 + raw_day(y),
            0 <= raw_month(x) < 100,
            0 <= raw_day(x) < 100,
            0 <= raw_month(y) < 100,
            0 <= raw_day(y) < 100,
    ;
}

/// `%Y-%m-%d` text of a packed date.
pub open spec fn iso_of(d: u32) -> Seq<char> {
    iso_text(raw_year(d), raw_month(d), raw_day(d))
}

/// Where the fields of the text `s = iso_of(raw)` sit, and what they read as.
pub open spec fn iso_shape(s: Seq<char>, raw: u32) -> bool {
    let y = raw_year(raw);
    let ys: int = if y <= 9999 {
        0
    } else {
        1
    };
    let ye: int = if y <= 9999 {
        4
    } else {
        s.len() - 6
    };
    &&& y <= 9999 ==> s.len() == 10 && s[0] != '+'
    &&& y > 9999 ==> 8 <= s.len() <= 13 && s[0] == '+'
    &&& s[ye] == '-' && s[ye + 3] == '-'
    &&& all_digits(s.subrange(ys, ye)) && digits_value(s.subrange(ys, ye)) == y
    &&& all_digits(s.subrange(ye + 1, ye + 3)) && digits_value(s.subrange(ye + 1, ye + 3))
        == raw_month(raw)
    &&& all_digits(s.subrange(ye + 4, ye + 6)) && digits_value(s.subrange(ye + 4, ye + 6))
        == raw_day(raw)
}

proof fn lemma_iso_shape(raw: u32)
    requires
        is_valid_raw(raw),
    ensures
        iso_shape(iso_of(raw), raw),
{
    reveal_with_fuel(pow10, 7);
    let y = raw_year(raw);
    let m = raw_month(raw);
    let d = raw_day(raw);
    let s = iso_of(raw);
    lemma_decimal_len_log(m as nat, 2);
    lemma_decimal_len_log(d as nat, 2);
    lemma_zero_padded_value(m as nat, 2);
    lemma_zero_padded_value(d as nat, 2);
    let zm = zero_padded(m as nat, 2);
    let zd = zero_padded(d as nat, 2);
    let year = if y <= 9999 {
        zero_padded(y as nat, 4)
    } else {
        seq!['+'] + decimal(y as nat)
    };
    assert(s == year + seq!['-'] + zm + seq!['-'] + zd);
    if y <= 9999 {
        lemma_decimal_len_log(y as nat, 4);
        lemma_zero_padded_value(y as nat, 4);
        assert(year.len() == 4);
        assert(is_ascii_digit(year[0]));
        assert(s[0] == year[0]);
        assert(s.subrange(0, 4) =~= year);
    } else {
        let dy = decimal(y as nat);
        if y < 100000 {
            lemma_decimal_len_exact(y as nat, 5);
        } else {
            lemma_decimal_len_exact(y as nat, 6);
        }
        lemma_decimal_value(y as nat);
        assert(s.subrange(1, 1 + dy.len() as int) =~= dy);
    }
    let ye = year.len() as int;
    assert(s.len() == ye + 6);
    assert(s.subrange(ye + 1, ye + 3) =~= zm);
    assert(s.subrange(ye + 4, ye + 6) =~= zd);
    assert(s[ye] == '-');
    assert(s[ye + 3] == '-');
}

/// The value of the digits `v[from..to]`, or `None` when one is not a digit.
fn digits_at(v: &Vec<char>, from: usize, to: usize) -> (r: Option<u32>)
    requires
        from <= to <= v.len(),
        to - from <= 6,
    ensures
        match r {
            Some(x) => all_digits(v@.subrange(from as int, to as int)) && x == digits_value(
                v@.subrange(from as int, to as int),
            ),
            None => !all_digits(v@.subrange(from as int, to as int)),
        },
{
    let ghost s = v@.subrange(from as int, to as int);
    let mut value: u32 = 0;
    let mut i = from;
    assert(s.take(0) =~= Seq::<char>::empty());
    while i < to
        invariant
            from <= i <= to <= v.len(),
            to - from <= 6,
            s == v@.subrange(from as int, to as int),
            all_digits(s.take(i - from)),
            value == digits_value(s.take(i - from)),
        decreases to - i,
    {
        let c = v[i];
        if !('0' <= c && c <= '9') {
            assert(s[i - from] == c);
            return None;
        }
        let ghost t = s.take(i + 1 - from);
        proof {
            assert(t.drop_last() =~= s.take(i - from));
            assert(t.last() == c);
            assert(all_digits(t)) by {
                assert forall|q: int| 0 <= q < t.len() implies is_ascii_digit(#[trigger] t[q]) by {
                    if q < t.len() - 1 {
                        assert(t[q] == s.take(i - from)[q]);
                    }
                }
            }
            lemma_digits_value_lt(t);
            reveal_with_fuel(pow10, 7);
            assert(pow10(t.len()) <= 1000000) by {
                assert(t.len() <= 6);
                lemma_pow10_mono(t.len(), 6);
            }
        }
        value = value * 10 + ((c as u32) - ('0' as u32));
        i = i + 1;
    }
    assert(s.take(to - from) =~= s);
    Some(value)
}

proof fn lemma_pow10_mono(a: nat, b: nat)
    requires
        a <= b,
    ensures
        pow10(a) <= pow10(b),
    decreases b,
{
    if a < b {
        lemma_pow10_mono(a, (b - 1) as nat);
        crate::text::lemma_pow10_positive((b - 1) as nat);
    }
}

proof fn lemma_raw_unique(a: u32, b: u32)
    requires
        raw_year(a) == raw_year(b),
        raw_month(a) == raw_month(b),
        raw_day(a) == raw_day(b),
    ensures
        a == b,
{
    assert(a == raw_year(a) * 10000 + raw_month(a) * 100 + raw_day(a)) by (nonlinear_arith);
    assert(b == raw_year(b) * 10000 + raw_month(b) * 100 + raw_day(b)) by (nonlinear_arith);
}

/// The date whose `%Y-%m-%d` text is exactly `s`, if there is one.
pub fn date_from_iso_text(s: &str) -> (r: Option<TradeDate>)
    ensures
        r matches Some(d) ==> s@ == iso_of(d@),
        forall|raw: u32| #![trigger iso_of(raw)]
            is_valid_raw(raw) && iso_of(raw) == s@ ==> (r matches Some(x) && x@ == raw),
{
    proof {
        assert forall|raw: u32| #![trigger iso_of(raw)] is_valid_raw(raw) implies iso_shape(
            iso_of(raw),
            raw,
        ) by {
            lemma_iso_shape(raw);
        }
    }
    let v = chars_of(s);
    let n = v.len();
    let plus = n >= 1 && v[0] == '+';
    if plus && (n < 8 || n > 13) {
        return None;
    }
    if !plus && n != 10 {
        return None;
    }
    let ys: usize = if plus {
        1
    } else {
        0
    };
    let ye: usize = if plus {
        n - 6
    } else {
        4
    };
    if v[ye] != '-' || v[ye + 3] != '-' {
        return None;
    }
    let y = match digits_at(&v, ys, ye) {
        Some(x) => x,
        None => {
            return None;
        },
    };
    let m = match digits_at(&v, ye + 1, ye + 3) {
        Some(x) => x,
        None => {
            return None;
        },
    };
    let d = match digits_at(&v, ye + 4, ye + 6) {
        Some(x) => x,
        None => {
            return None;
        },
    };
    proof {
        lemma_digits_value_lt(v@.subrange(ys as int, ye as int));
        reveal_with_fuel(pow10, 7);
        lemma_pow10_mono((ye - ys) as nat, 6);
    }
    let date = match TradeDate::from_ymd(y as i32, m, d) {
        Some(x) => x,
        None => {
            return None;
        },
    };
    let text = date.format_iso();
    let f = chars_of(text.as_str());
    if chars_eq(&f, &v) {
        proof {
            assert forall|raw: u32| #![trigger iso_of(raw)]
                is_valid_raw(raw) && iso_of(raw) == s@ implies date@ == raw by {
                lemma_raw_unique(date@, raw);
            }
        }
        Some(date)
    } else {
        None
    }
}

/// Distinct dates have distinct `%Y-%m-%d` texts, so a date's text names it.
pub proof fn law_iso_text_injective(a: u32, b: u32)
    requires
        is_valid_raw(a),
        is_valid_raw(b),
        iso_of(a) == iso_of(b),
    ensures
        a == b,
{
    lemma_iso_shape(a);
    lemma_iso_shape(b);
    let s = iso_of(a);
    assert(raw_year(a) <= 9999 <==> s[0] != '+');
    assert(raw_year(b) <= 9999 <==> s[0] != '+');
    lemma_raw_unique(a, b);
}

} // verus!
