//! The non-numeric part of the Qlib binary dump: which `.day` files are
//! A-share stocks, their Qlib names, how a stock's bars line up with the
//! global trading calendar, and how gaps in a series are filled.
use vstd::prelude::*;
use std::collections::HashMap;
use crate::date::{TradeDate, date_from_iso_text, iso_of, is_valid_raw};
use crate::tdx::day_file::{DayRecord, DayFields, records_view};
use crate::tdx::paths::{Market, char_width, char_width_exec, spec_dir_name, utf8_len, utf8_shorter_than};
use crate::text::{
    lemma_two_char_prefix,
    chars_of, has_prefix, has_prefix_at, push_char, push_str, texts_view, owned, seq_lt,
    stable_text_order, is_index_permutation, stably_sorted,
};

verus! {

broadcast use vstd::std_specs::hash::group_hash_axioms;

// ── A-share codes ──────────────────────────────────────────────────────────
/// The codes on which the byte slice `code[..2]` would cut a
/// character in two.
pub open spec fn code_prefix_splits_char(code: Seq<char>) -> bool {
    utf8_len(code) >= 2 && !(char_width(code[0]) == 2 || (char_width(code[0]) == 1 && char_width(
        code[1],
    ) == 1))
}

/// Whether `code` is one of the codes whose two-byte prefix would cut a
/// character (see `code_prefix_splits_char`); callers test this before
/// classifying a code.
pub fn code_prefix_would_split(code: &str) -> (r: bool)
    ensures
        r == code_prefix_splits_char(code@),
{
    let v = chars_of(code);
    proof {
        assert(v@.subrange(0, v.len() as int) =~= v@);
    }
    if utf8_shorter_than(&v, 0, v.len(), 2) {
        return false;
    }
    proof {
        assert(v@.len() >= 1) by {
            if v@.len() == 0 {
                assert(utf8_len(v@) == 0);
            }
        }
        if char_width(v@[0]) == 1 {
            assert(v@.len() >= 2) by {
                if v@.len() == 1 {
                    assert(v@.drop_last() =~= Seq::<char>::empty());
                    assert(utf8_len(v@) == utf8_len(v@.drop_last()) + char_width(v@.last()));
                }
            }
        }
    }
    let w0 = char_width_exec(v[0]);
    if w0 == 2 {
        return false;
    }
    if w0 != 1 {
        return true;
    }
    char_width_exec(v[1]) != 1
}

pub open spec fn spec_is_a_stock(market: Market, code: Seq<char>) -> bool {
    if utf8_len(code) < 2 {
        false
    } else {
        match market {
            Market::Sh => code[0] == '6' && (code[1] == '0' || code[1] == '8'),
            Market::Sz => (code[0] == '0' || code[0] == '3') && code[1] == '0',
            Market::Bj => has_prefix(code, seq!['8', '3']) || has_prefix(code, seq!['8', '7'])
                || has_prefix(code, seq!['8', '8']) || has_prefix(code, seq!['4', '3'])
                || has_prefix(code, seq!['9', '2', '0']),
        }
    }
}

/// Whether a TDX code is an A-share stock: Shanghai `60`/`68`, Shenzhen
/// `00`/`30`, Beijing `83`/`87`/`88`/`43`/`920`.
pub fn is_a_stock(market: Market, code: &str) -> (r: bool)
    requires
        !code_prefix_splits_char(code@),
    ensures
        r == spec_is_a_stock(market, code@),
{
    let v = chars_of(code);
    if utf8_shorter_than(&v, 0, v.len(), 2) {
        proof {
            assert(v@.subrange(0, v.len() as int) =~= v@);
        }
        return false;
    }
    proof {
        assert(v@.subrange(0, v.len() as int) =~= v@);
        assert(v@.len() >= 1) by {
            if v@.len() == 0 {
                assert(utf8_len(v@) == 0);
            }
        }
        if char_width(v@[0]) == 1 {
            assert(v@.len() >= 2) by {
                if v@.len() == 1 {
                    assert(v@.drop_last() =~= Seq::<char>::empty());
                    assert(utf8_len(v@) == utf8_len(v@.drop_last()) + char_width(v@.last()));
                }
            }
        }
    }
    if char_width_exec(v[0]) != 1 {
        return false;
    }
    let c0 = v[0];
    let c1 = v[1];
    match market {
        Market::Sh => c0 == '6' && (c1 == '0' || c1 == '8'),
        Market::Sz => (c0 == '0' || c0 == '3') && c1 == '0',
        Market::Bj => {
            let p83: Vec<char> = vec!['8', '3'];
            let p87: Vec<char> = vec!['8', '7'];
            let p88: Vec<char> = vec!['8', '8'];
            let p43: Vec<char> = vec!['4', '3'];
            let p920: Vec<char> = vec!['9', '2', '0'];
            proof {
                assert(v@.skip(0) =~= v@);
            }
            has_prefix_at(&v, 0, &p83) || has_prefix_at(&v, 0, &p87) || has_prefix_at(&v, 0, &p88)
                || has_prefix_at(&v, 0, &p43) || has_prefix_at(&v, 0, &p920)
        },
    }
}

/// A stock's names in the Qlib output.
#[derive(Clone, Debug)]
pub struct StockId {
    pub market: Market,
    pub symbol: String,
    /// Upper-case market and code, e.g. `SH600519`.
    pub qlib_symbol: String,
    /// Lower-case market and code, e.g. `sh600519`: the feature directory.
    pub dir_name: String,
}

pub open spec fn qlib_market(m: Market) -> Seq<char> {
    match m {
        Market::Sh => seq!['S', 'H'],
        Market::Sz => seq!['S', 'Z'],
        Market::Bj => seq!['B', 'J'],
    }
}

/// The Qlib identifiers of an A-share stock, or `None` for another code.
pub fn make_stock_id(market: Market, symbol: &str) -> (r: Option<StockId>)
    requires
        !code_prefix_splits_char(symbol@),
    ensures
        r is Some <==> spec_is_a_stock(market, symbol@),
        r matches Some(id) ==> id.market == market && id.symbol@ == symbol@ && id.qlib_symbol@
            == qlib_market(market) + symbol@ && id.dir_name@ == spec_dir_name(market) + symbol@,
{
    if !is_a_stock(market, symbol) {
        return None;
    }
    let mut qlib_symbol = String::new();
    match market {
        Market::Sh => {
            push_char(&mut qlib_symbol, 'S');
            push_char(&mut qlib_symbol, 'H');
        },
        Market::Sz => {
            push_char(&mut qlib_symbol, 'S');
            push_char(&mut qlib_symbol, 'Z');
        },
        Market::Bj => {
            push_char(&mut qlib_symbol, 'B');
            push_char(&mut qlib_symbol, 'J');
        },
    }
    assert(qlib_symbol@ =~= qlib_market(market));
    push_str(&mut qlib_symbol, symbol);
    let mut dir_name = String::new();
    push_str(&mut dir_name, market.dir_name());
    push_str(&mut dir_name, symbol);
    Some(StockId { market, symbol: crate::text::owned(symbol), qlib_symbol, dir_name })
}

/// The A-share stocks among the listed `(market, code)` pairs, in order
/// (what `scan_a_stocks` keeps of the file listing).
pub fn a_stock_ids(symbols: &Vec<(Market, String)>) -> (r: Vec<StockId>)
    requires
        forall|i: int| 0 <= i < symbols.len() ==> !code_prefix_splits_char(#[trigger] symbols[i].1@),
    ensures
        r.len() <= symbols.len(),
        forall|i: int|
            0 <= i < r.len() ==> spec_is_a_stock(#[trigger] r[i].market, r[i].symbol@),
        r@.map_values(|id: StockId| (id.market, id.symbol@)) == symbols@.map_values(
            |p: (Market, String)| (p.0, p.1@),
        ).filter(|p: (Market, Seq<char>)| spec_is_a_stock(p.0, p.1)),
{
    let ghost sv = symbols@.map_values(|p: (Market, String)| (p.0, p.1@));
    let ghost pred = |p: (Market, Seq<char>)| spec_is_a_stock(p.0, p.1);
    let mut r: Vec<StockId> = Vec::new();
    let mut i: usize = 0;
    while i < symbols.len()
        invariant
            0 <= i <= symbols.len(),
            sv == symbols@.map_values(|p: (Market, String)| (p.0, p.1@)),
            pred == (|p: (Market, Seq<char>)| spec_is_a_stock(p.0, p.1)),
            forall|q: int| 0 <= q < symbols.len() ==> !code_prefix_splits_char(#[trigger] symbols[q].1@),
            r.len() <= i,
            forall|q: int| 0 <= q < r.len() ==> spec_is_a_stock(#[trigger] r[q].market, r[q].symbol@),
            r@.map_values(|id: StockId| (id.market, id.symbol@)) == sv.take(i as int).filter(pred),
        decreases symbols.len() - i,
    {
        let ghost before = r@;
        proof {
            reveal_with_fuel(Seq::<_>::filter, 1);
            assert(sv.take(i + 1).drop_last() =~= sv.take(i as int));
            assert(sv.take(i + 1).last() == sv[i as int]);
        }
        match make_stock_id(symbols[i].0, symbols[i].1.as_str()) {
            Some(id) => {
                r.push(id);
                proof {
                    assert(r@.map_values(|id: StockId| (id.market, id.symbol@)) =~= before.map_values(
                        |id: StockId| (id.market, id.symbol@),
                    ).push(sv[i as int]));
                }
            },
            None => {},
        }
        i = i + 1;
    }
    assert(sv.take(symbols.len() as int) =~= sv);
    r
}

// ── calendar alignment ─────────────────────────────────────────────────────
/// Index of the last calendar day whose text is the date `raw`, or -1.
pub open spec fn last_calendar_index(cal: Seq<Seq<char>>, raw: u32) -> int
    decreases cal.len(),
{
    if cal.len() == 0 {
        -1
    } else if cal.last() == iso_of(raw) {
        cal.len() - 1
    } else {
        last_calendar_index(cal.drop_last(), raw)
    }
}

/// The global trading calendar of a dump: its days as `YYYY-MM-DD` text in
/// order, with an index from a date to the last position of its text.
pub struct QlibCalendar {
    days: Vec<String>,
    index: HashMap<u32, usize>,
}

impl View for QlibCalendar {
    type V = Seq<Seq<char>>;

    closed spec fn view(&self) -> Seq<Seq<char>> {
        texts_view(self.days@)
    }
}

proof fn lemma_last_calendar_index(cal: Seq<Seq<char>>, raw: u32)
    ensures
        -1 <= last_calendar_index(cal, raw) < cal.len(),
        last_calendar_index(cal, raw) >= 0 ==> cal[last_calendar_index(cal, raw)] == iso_of(raw),
        forall|j: int|
            last_calendar_index(cal, raw) < j < cal.len() ==> #[trigger] cal[j] != iso_of(raw),
    decreases cal.len(),
{
    if cal.len() > 0 && cal.last() != iso_of(raw) {
        lemma_last_calendar_index(cal.drop_last(), raw);
        assert forall|j: int| last_calendar_index(cal, raw) < j < cal.len() implies #[trigger] cal[j]
            != iso_of(raw) by {
            if j < cal.len() - 1 {
                assert(cal.drop_last()[j] == cal[j]);
            }
        }
    }
}

impl QlibCalendar {
    #[verifier::type_invariant]
    spec fn wf(self) -> bool {
        &&& forall|raw: u32| #[trigger]
            self.index@.contains_key(raw) ==> is_valid_raw(raw) && self.index@[raw]
                == last_calendar_index(texts_view(self.days@), raw)
        &&& forall|raw: u32|
            is_valid_raw(raw) && last_calendar_index(texts_view(self.days@), raw) >= 0
                ==> #[trigger] self.index@.contains_key(raw)
    }

    /// The calendar with the given days.
    pub fn new(days: Vec<String>) -> (r: QlibCalendar)
        ensures
            r@ == texts_view(days@),
    {
        let ghost cv = texts_view(days@);
        let mut index: HashMap<u32, usize> = HashMap::new();
        let mut i: usize = 0;
        while i < days.len()
            invariant
                0 <= i <= days.len(),
                cv == texts_view(days@),
                forall|raw: u32| #[trigger]
                    index@.contains_key(raw) ==> is_valid_raw(raw) && index@[raw]
                        == last_calendar_index(cv.take(i as int), raw),
                forall|raw: u32|
                    is_valid_raw(raw) && last_calendar_index(cv.take(i as int), raw) >= 0
                        ==> #[trigger] index@.contains_key(raw),
            decreases days.len() - i,
        {
            let key = date_from_iso_text(days[i].as_str());
            let ghost t = cv.take(i + 1);
            proof {
                assert(t.drop_last() =~= cv.take(i as int));
                assert(t.last() == days@[i as int]@);
            }
            match key {
                Some(d) => {
                    let raw = d.raw();
                    index.insert(raw, i);
                    proof {
                        d.lemma_valid();
                        assert forall|r2: u32| #[trigger] index@.contains_key(r2) implies is_valid_raw(
                            r2,
                        ) && index@[r2] == last_calendar_index(t, r2) by {
                            if r2 != raw {
                                assert(t.last() != iso_of(r2)) by {
                                    if t.last() == iso_of(r2) {
                                        assert(is_valid_raw(r2));
                                    }
                                }
                            }
                        }
                        assert forall|r2: u32|
                            is_valid_raw(r2) && last_calendar_index(t, r2) >= 0 implies #[trigger] index@.contains_key(
                            r2,
                        ) by {
                            if r2 != raw && t.last() == iso_of(r2) {
                                assert(d@ == r2);
                            }
                        }
                    }
                },
                None => {
                    proof {
                        assert forall|r2: u32| #[trigger] index@.contains_key(r2) implies is_valid_raw(
                            r2,
                        ) && index@[r2] == last_calendar_index(t, r2) by {
                            assert(t.last() != iso_of(r2));
                        }
                        assert forall|r2: u32|
                            is_valid_raw(r2) && last_calendar_index(t, r2) >= 0 implies #[trigger] index@.contains_key(
                            r2,
                        ) by {
                            assert(t.last() != iso_of(r2));
                        }
                    }
                },
            }
            i = i + 1;
        }
        assert(cv.take(days.len() as int) =~= cv);
        QlibCalendar { days, index }
    }

    pub fn len(&self) -> (r: usize)
        ensures
            r == self@.len(),
    {
        self.days.len()
    }

    /// The text of day `i`.
    pub fn day(&self, i: usize) -> (r: &String)
        requires
            i < self@.len(),
        ensures
            r@ == self@[i as int],
    {
        &self.days[i]
    }

    /// The position of the last day whose text is `d`, if any
    /// (`calendar_set.get(&d.format("%Y-%m-%d"))`).
    pub fn position_of(&self, d: TradeDate) -> (r: Option<usize>)
        ensures
            match r {
                Some(i) => i as int == last_calendar_index(self@, d@),
                None => last_calendar_index(self@, d@) < 0,
            },
    {
        proof {
            use_type_invariant(self);
            d.lemma_valid();
        }
        match self.index.get(&d.raw()) {
            Some(i) => Some(*i),
            None => None,
        }
    }
}

/// Index of the first bar whose date is a calendar day, or -1.
pub open spec fn first_aligned_bar(bars: Seq<DayFields>, cal: Seq<Seq<char>>) -> int
    decreases bars.len(),
{
    if bars.len() == 0 {
        -1
    } else {
        let r = first_aligned_bar(bars.drop_last(), cal);
        if r >= 0 {
            r
        } else if last_calendar_index(cal, bars.last().date) >= 0 {
            bars.len() - 1
        } else {
            -1
        }
    }
}

/// Index of the last bar whose date is a calendar day, or -1.
pub open spec fn last_aligned_bar(bars: Seq<DayFields>, cal: Seq<Seq<char>>) -> int
    decreases bars.len(),
{
    if bars.len() == 0 {
        -1
    } else if last_calendar_index(cal, bars.last().date) >= 0 {
        bars.len() - 1
    } else {
        last_aligned_bar(bars.drop_last(), cal)
    }
}

/// Index of the last bar dated `raw`, or -1.
pub open spec fn last_bar_dated(bars: Seq<DayFields>, raw: u32) -> int
    decreases bars.len(),
{
    if bars.len() == 0 {
        -1
    } else if bars.last().date == raw {
        bars.len() - 1
    } else {
        last_bar_dated(bars.drop_last(), raw)
    }
}

/// Where a stock's series sits in the calendar: the calendar positions of
/// its first and last calendar-aligned bars, and those bars' dates.
#[derive(Clone, Copy, Debug)]
pub struct CalendarSpan {
    pub start_idx: usize,
    pub end_idx: usize,
    pub first_date: TradeDate,
    pub last_date: TradeDate,
}

/// The calendar span of `bars`; `None` when no bar falls on a calendar day
/// (the stock is skipped).
pub fn calendar_span(bars: &Vec<DayRecord>, cal: &QlibCalendar) -> (r: Option<CalendarSpan>)
    ensures
        match r {
            Some(span) => {
                let f = first_aligned_bar(records_view(bars@), cal@);
                let l = last_aligned_bar(records_view(bars@), cal@);
                &&& f >= 0 && l >= 0
                &&& span.first_date == bars@[f].date
                &&& span.last_date == bars@[l].date
                &&& span.start_idx as int == last_calendar_index(cal@, bars@[f].date@)
                &&& span.end_idx as int == last_calendar_index(cal@, bars@[l].date@)
            },
            None => first_aligned_bar(records_view(bars@), cal@) < 0,
        },
{
    let ghost bv = records_view(bars@);
    let mut first: Option<(usize, usize)> = None;
    let mut last: Option<(usize, usize)> = None;
    let mut i: usize = 0;
    while i < bars.len()
        invariant
            0 <= i <= bars.len(),
            bv == records_view(bars@),
            match first {
                Some((b, p)) => b as int == first_aligned_bar(bv.take(i as int), cal@) && b < i
                    && p as int == last_calendar_index(cal@, bars@[b as int].date@),
                None => first_aligned_bar(bv.take(i as int), cal@) < 0,
            },
            match last {
                Some((b, p)) => b as int == last_aligned_bar(bv.take(i as int), cal@) && b < i
                    && p as int == last_calendar_index(cal@, bars@[b as int].date@),
                None => last_aligned_bar(bv.take(i as int), cal@) < 0,
            },
            first is Some <==> last is Some,
        decreases bars.len() - i,
    {
        let pos = cal.position_of(bars[i].date);
        proof {
            let t = bv.take(i + 1);
            assert(t.drop_last() =~= bv.take(i as int));
            assert(t.last() == bars@[i as int]@);
            lemma_first_aligned_bound(bv.take(i as int), cal@);
            lemma_last_aligned_bound(bv.take(i as int), cal@);
            match first {
                Some((b, p)) => {
                    assert(bv.take(i as int)[b as int] == bv[b as int]);
                },
                None => {},
            }
        }
        match pos {
            Some(p) => {
                if first.is_none() {
                    first = Some((i, p));
                }
                last = Some((i, p));
            },
            None => {},
        }
        i = i + 1;
    }
    assert(bv.take(bars.len() as int) =~= bv);
    match (first, last) {
        (Some((fb, fp)), Some((lb, lp))) => Some(
            CalendarSpan {
                start_idx: fp,
                end_idx: lp,
                first_date: bars[fb].date,
                last_date: bars[lb].date,
            },
        ),
        _ => None,
    }
}

proof fn lemma_first_aligned_bound(bars: Seq<DayFields>, cal: Seq<Seq<char>>)
    ensures
        -1 <= first_aligned_bar(bars, cal) < bars.len(),
    decreases bars.len(),
{
    if bars.len() > 0 {
        lemma_first_aligned_bound(bars.drop_last(), cal);
    }
}

proof fn lemma_last_aligned_bound(bars: Seq<DayFields>, cal: Seq<Seq<char>>)
    ensures
        -1 <= last_aligned_bar(bars, cal) < bars.len(),
    decreases bars.len(),
{
    if bars.len() > 0 {
        lemma_last_aligned_bound(bars.drop_last(), cal);
    }
}

proof fn lemma_last_bar_dated(bars: Seq<DayFields>, raw: u32)
    ensures
        -1 <= last_bar_dated(bars, raw) < bars.len(),
        last_bar_dated(bars, raw) >= 0 ==> bars[last_bar_dated(bars, raw)].date == raw,
        forall|j: int| last_bar_dated(bars, raw) < j < bars.len() ==> #[trigger] bars[j].date != raw,
    decreases bars.len(),
{
    if bars.len() > 0 && bars.last().date != raw {
        lemma_last_bar_dated(bars.drop_last(), raw);
        assert forall|j: int| last_bar_dated(bars, raw) < j < bars.len() implies #[trigger] bars[j].date
            != raw by {
            if j < bars.len() - 1 {
                assert(bars.drop_last()[j] == bars[j]);
            }
        }
    }
}

/// For each calendar day `start_idx..=end_idx`, the last bar whose date is
/// that day (`date_data.get(date)`), or `None` when the stock has no bar
/// that day.
pub fn calendar_slots(bars: &Vec<DayRecord>, cal: &QlibCalendar, start_idx: usize, end_idx: usize) -> (r:
    Vec<Option<usize>>)
    requires
        start_idx <= end_idx < cal@.len(),
    ensures
        r.len() == end_idx - start_idx + 1,
        forall|i: int|
            0 <= i < r.len() ==> match #[trigger] r[i] {
                Some(b) => b < bars.len() && iso_of(bars@[b as int].date@) == cal@[start_idx + i]
                    && forall|j: int|
                    b < j < bars.len() ==> iso_of(#[trigger] bars@[j].date@) != cal@[start_idx + i],
                None => forall|j: int|
                    0 <= j < bars.len() ==> iso_of(#[trigger] bars@[j].date@) != cal@[start_idx + i],
            },
{
    let ghost bv = records_view(bars@);
    let mut by_date: HashMap<u32, usize> = HashMap::new();
    let mut b: usize = 0;
    while b < bars.len()
        invariant
            0 <= b <= bars.len(),
            bv == records_view(bars@),
            forall|raw: u32| #[trigger]
                by_date@.contains_key(raw) <==> last_bar_dated(bv.take(b as int), raw) >= 0,
            forall|raw: u32| #[trigger]
                by_date@.contains_key(raw) ==> by_date@[raw] == last_bar_dated(bv.take(b as int), raw),
        decreases bars.len() - b,
    {
        let raw = bars[b].date.raw();
        by_date.insert(raw, b);
        proof {
            let t = bv.take(b + 1);
            assert(t.drop_last() =~= bv.take(b as int));
            assert(t.last() == bars@[b as int]@);
        }
        b = b + 1;
    }
    assert(bv.take(bars.len() as int) =~= bv);
    let mut r: Vec<Option<usize>> = Vec::new();
    let n_days = cal.len();
    let mut i: usize = start_idx;
    while i <= end_idx
        invariant
            start_idx <= i <= end_idx + 1,
            end_idx < cal@.len(),
            n_days == cal@.len(),
            bv == records_view(bars@),
            r.len() == i - start_idx,
            forall|raw: u32| #[trigger]
                by_date@.contains_key(raw) <==> last_bar_dated(bv, raw) >= 0,
            forall|raw: u32| #[trigger]
                by_date@.contains_key(raw) ==> by_date@[raw] == last_bar_dated(bv, raw),
            forall|k: int|
                0 <= k < r.len() ==> match #[trigger] r[k] {
                    Some(b) => b < bars.len() && iso_of(bars@[b as int].date@) == cal@[start_idx + k]
                        && forall|j: int|
                        b < j < bars.len() ==> iso_of(#[trigger] bars@[j].date@) != cal@[start_idx + k],
                    None => forall|j: int|
                        0 <= j < bars.len() ==> iso_of(#[trigger] bars@[j].date@) != cal@[start_idx + k],
                },
        decreases end_idx + 1 - i,
    {
        let text = cal.day(i);
        let key = date_from_iso_text(text.as_str());
        let slot = match key {
            Some(d) => {
                let raw = d.raw();
                match by_date.get(&raw) {
                    Some(bi) => Some(*bi),
                    None => None,
                }
            },
            None => None,
        };
        proof {
            let c = cal@[i as int];
            match slot {
                Some(bi) => {
                    let raw = key.unwrap()@;
                    lemma_last_bar_dated(bv, raw);
                    assert(bv[bi as int].date == raw);
                    assert(bars@[bi as int].date@ == raw);
                    assert forall|j: int| bi < j < bars.len() implies iso_of(
                        #[trigger] bars@[j].date@,
                    ) != c by {
                        assert(bv[j].date == bars@[j].date@);
                        if iso_of(bars@[j].date@) == c {
                            bars@[j].date.lemma_valid();
                        }
                    }
                },
                None => {
                    assert forall|j: int| 0 <= j < bars.len() implies iso_of(
                        #[trigger] bars@[j].date@,
                    ) != c by {
                        bars@[j].date.lemma_valid();
                        assert(bv[j].date == bars@[j].date@);
                        if iso_of(bars@[j].date@) == c {
                            lemma_last_bar_dated(bv, bars@[j].date@);
                        }
                    }
                },
            }
        }
        r.push(slot);
        i = i + 1;
    }
    r
}

/// The line of `instruments/all.txt` for a stock: `SYMBOL\tfirst\tlast`.
pub fn instrument_line(id: &StockId, span: &CalendarSpan) -> (r: String)
    ensures
        r@ == id.qlib_symbol@ + seq!['\t'] + iso_of(span.first_date@) + seq!['\t'] + iso_of(
            span.last_date@,
        ),
{
    let mut r = String::new();
    push_str(&mut r, id.qlib_symbol.as_str());
    push_char(&mut r, '\t');
    let f = span.first_date.format_iso();
    push_str(&mut r, f.as_str());
    push_char(&mut r, '\t');
    let l = span.last_date.format_iso();
    push_str(&mut r, l.as_str());
    r
}

// ── gap filling ────────────────────────────────────────────────────────────
/// Index of the last valid position before `i`, or -1.
pub open spec fn last_valid_before(has_value: Seq<bool>, i: int) -> int
    decreases i,
{
    if i <= 0 {
        -1
    } else if has_value[i - 1] {
        i - 1
    } else {
        last_valid_before(has_value, i - 1)
    }
}

/// Index of the first valid position in `i..n`, or -1.
pub open spec fn first_valid_from(has_value: Seq<bool>, i: int, n: int) -> int
    decreases n - i,
{
    if i >= n {
        -1
    } else if has_value[i] {
        i
    } else {
        first_valid_from(has_value, i + 1, n)
    }
}

/// The value at `i` after a forward fill followed by a backward fill of the
/// gaps (`pandas` `ffill().bfill()`): a valid position keeps its value, a gap
/// takes the last valid value before it, a gap before every valid value takes
/// the first valid value, and with no valid value nothing changes.
pub open spec fn filled_value<T>(arr: Seq<T>, has_value: Seq<bool>, i: int) -> T {
    if has_value[i] {
        arr[i]
    } else if last_valid_before(has_value, i) >= 0 {
        arr[last_valid_before(has_value, i)]
    } else if first_valid_from(has_value, i + 1, arr.len() as int) >= 0 {
        arr[first_valid_from(has_value, i + 1, arr.len() as int)]
    } else {
        arr[i]
    }
}

proof fn lemma_last_valid_before(has_value: Seq<bool>, i: int)
    requires
        0 <= i <= has_value.len(),
    ensures
        -1 <= last_valid_before(has_value, i) < i,
        last_valid_before(has_value, i) >= 0 ==> has_value[last_valid_before(has_value, i)],
        forall|j: int| last_valid_before(has_value, i) < j < i ==> !#[trigger] has_value[j],
    decreases i,
{
    if i > 0 && !has_value[i - 1] {
        lemma_last_valid_before(has_value, i - 1);
    }
}

proof fn lemma_first_valid_from(has_value: Seq<bool>, i: int, n: int)
    requires
        0 <= i <= n <= has_value.len(),
    ensures
        first_valid_from(has_value, i, n) == -1 || i <= first_valid_from(has_value, i, n) < n,
        first_valid_from(has_value, i, n) >= 0 ==> has_value[first_valid_from(has_value, i, n)],
        forall|j: int|
            i <= j < n && (first_valid_from(has_value, i, n) < 0 || j < first_valid_from(
                has_value,
                i,
                n,
            )) ==> !#[trigger] has_value[j],
    decreases n - i,
{
    if i < n && !has_value[i] {
        lemma_first_valid_from(has_value, i + 1, n);
    }
}

/// Fills the gaps of `arr` (the positions where `has_value` is false) by a
/// forward fill and then a backward fill of what remains.
pub fn ffill_bfill<T: Copy>(arr: &mut Vec<T>, has_value: &Vec<bool>)
    requires
        old(arr).len() <= has_value.len(),
    ensures
        final(arr).len() == old(arr).len(),
        forall|i: int|
            0 <= i < old(arr).len() ==> #[trigger] final(arr)@[i] == filled_value(
                old(arr)@,
                has_value@,
                i,
            ),
{
    let ghost orig = arr@;
    let n = arr.len();
    // Forward fill.
    let mut last: Option<T> = None;
    let mut first_valid_idx: Option<usize> = None;
    let mut i: usize = 0;
    while i < n
        invariant
            n == arr.len() == orig.len(),
            n <= has_value.len(),
            0 <= i <= n,
            forall|k: int| i <= k < n ==> #[trigger] arr@[k] == orig[k],
            forall|k: int|
                0 <= k < i ==> #[trigger] arr@[k] == if has_value@[k] {
                    orig[k]
                } else if last_valid_before(has_value@, k) >= 0 {
                    orig[last_valid_before(has_value@, k)]
                } else {
                    orig[k]
                },
            match last {
                Some(v) => last_valid_before(has_value@, i as int) >= 0 && v == orig[last_valid_before(
                    has_value@,
                    i as int,
                )],
                None => last_valid_before(has_value@, i as int) < 0,
            },
            match first_valid_idx {
                Some(f) => f < i && f as int == first_valid_from(has_value@, 0, i as int),
                None => first_valid_from(has_value@, 0, i as int) < 0,
            },
        decreases n - i,
    {
        proof {
            lemma_first_valid_prefix(has_value@, i as int);
        }
        if has_value[i] {
            last = Some(arr[i]);
            if first_valid_idx.is_none() {
                first_valid_idx = Some(i);
            }
        } else {
            match last {
                Some(v) => {
                    arr.set(i, v);
                },
                None => {},
            }
        }
        i = i + 1;
    }
    // Backward fill of the gaps before the first valid value.
    proof {
        lemma_first_valid_from(has_value@, 0, n as int);
    }
    match first_valid_idx {
        Some(f) => {
            let v = arr[f];
            let mut j: usize = 0;
            while j < f
                invariant
                    n == arr.len() == orig.len(),
                    n <= has_value.len(),
                    f < n,
                    f as int == first_valid_from(has_value@, 0, n as int),
                    has_value@[f as int],
                    v == orig[f as int],
                    0 <= j <= f,
                    forall|k: int| 0 <= k < j ==> #[trigger] arr@[k] == orig[f as int],
                    forall|k: int|
                        j <= k < n ==> #[trigger] arr@[k] == if has_value@[k] {
                            orig[k]
                        } else if last_valid_before(has_value@, k) >= 0 {
                            orig[last_valid_before(has_value@, k)]
                        } else {
                            orig[k]
                        },
                decreases f - j,
            {
                arr.set(j, v);
                j = j + 1;
            }
            proof {
                lemma_first_valid_from(has_value@, 0, n as int);
                assert forall|k: int| 0 <= k < n implies #[trigger] arr@[k] == filled_value(
                    orig,
                    has_value@,
                    k,
                ) by {
                    lemma_last_valid_before(has_value@, k);
                    lemma_first_valid_from(has_value@, k + 1, n as int);
                    if k < f {
                        assert(!has_value@[k]);
                        assert(last_valid_before(has_value@, k) < 0) by {
                            if last_valid_before(has_value@, k) >= 0 {
                                assert(has_value@[last_valid_before(has_value@, k)]);
                            }
                        }
                        lemma_first_valid_shift(has_value@, k + 1, n as int, f as int);
                    } else if k > f && !has_value@[k] {
                        assert(last_valid_before(has_value@, k) >= f) by {
                            lemma_last_valid_at_least(has_value@, k, f as int);
                        }
                    }
                }
            }
        },
        None => {
            proof {
                lemma_first_valid_from(has_value@, 0, n as int);
                assert forall|k: int| 0 <= k < n implies #[trigger] arr@[k] == filled_value(
                    orig,
                    has_value@,
                    k,
                ) by {
                    lemma_last_valid_before(has_value@, k);
                    lemma_first_valid_from(has_value@, k + 1, n as int);
                    assert(!has_value@[k]);
                    assert(last_valid_before(has_value@, k) < 0) by {
                        if last_valid_before(has_value@, k) >= 0 {
                            assert(has_value@[last_valid_before(has_value@, k)]);
                        }
                    }
                    assert(first_valid_from(has_value@, k + 1, n as int) < 0) by {
                        if first_valid_from(has_value@, k + 1, n as int) >= 0 {
                            assert(has_value@[first_valid_from(has_value@, k + 1, n as int)]);
                        }
                    }
                }
            }
        },
    }
}

proof fn lemma_first_valid_prefix(has_value: Seq<bool>, i: int)
    requires
        0 <= i < has_value.len(),
    ensures
        first_valid_from(has_value, 0, i + 1) == if first_valid_from(has_value, 0, i) >= 0 {
            first_valid_from(has_value, 0, i)
        } else if has_value[i] {
            i
        } else {
            -1
        },
{
    lemma_first_valid_extend(has_value, 0, i);
}

proof fn lemma_first_valid_extend(has_value: Seq<bool>, s: int, i: int)
    requires
        0 <= s <= i < has_value.len(),
    ensures
        first_valid_from(has_value, s, i + 1) == if first_valid_from(has_value, s, i) >= 0 {
            first_valid_from(has_value, s, i)
        } else if has_value[i] {
            i
        } else {
            -1
        },
    decreases i - s,
{
    reveal_with_fuel(first_valid_from, 2);
    if s < i && !has_value[s] {
        lemma_first_valid_extend(has_value, s + 1, i);
    }
}

/// With no valid position in `[a, f)`, the first valid from `a` is `f`.
proof fn lemma_first_valid_shift(has_value: Seq<bool>, a: int, n: int, f: int)
    requires
        0 <= a <= f < n <= has_value.len(),
        has_value[f],
        forall|j: int| a <= j < f ==> !#[trigger] has_value[j],
    ensures
        first_valid_from(has_value, a, n) == f,
    decreases f - a,
{
    if a < f {
        lemma_first_valid_shift(has_value, a + 1, n, f);
    }
}

proof fn lemma_last_valid_at_least(has_value: Seq<bool>, k: int, f: int)
    requires
        0 <= f < k <= has_value.len(),
        has_value[f],
    ensures
        last_valid_before(has_value, k) >= f,
    decreases k,
{
    if k - 1 > f && !has_value[k - 1] {
        lemma_last_valid_at_least(has_value, k - 1, f);
    }
}

// ── dump progress ──────────────────────────────────────────────────────────
/// Progress of a dump run.
#[derive(Clone, Debug)]
pub struct DumpProgress {
    pub processed: usize,
    pub total: usize,
    pub current_symbol: String,
    pub message: String,
}

/// What the service knows of the current or last dump run; `S` is the
/// type of the final statistics.
#[derive(Clone, Debug)]
pub struct QlibRunState<S> {
    pub running: bool,
    pub progress: Option<DumpProgress>,
    pub stats: Option<S>,
    pub error: Option<String>,
}

impl<S> QlibRunState<S> {
    /// No run yet.
    pub fn new() -> (r: QlibRunState<S>)
        ensures
            !r.running,
            r.progress is None,
            r.stats is None,
            r.error is None,
    {
        QlibRunState { running: false, progress: None, stats: None, error: None }
    }

    /// Begins a run over `total` stocks: refused (`false`, nothing changed)
    /// while one runs; otherwise running, at the start, with no result.
    pub fn start(&mut self, total: usize) -> (r: bool)
        ensures
            r == !old(self).running,
            !r ==> *final(self) == *old(self),
            r ==> final(self).running && final(self).stats is None && final(self).error is None
                && (final(self).progress matches Some(p) && p.processed == 0 && p.total == total
                && p.current_symbol@.len() == 0 && p.message@ == "初始化..."@),
    {
        if self.running {
            return false;
        }
        self.running = true;
        self.progress = Some(
            DumpProgress {
                processed: 0,
                total,
                current_symbol: String::new(),
                message: owned("初始化..."),
            },
        );
        self.stats = None;
        self.error = None;
        true
    }

    /// Records progress; the run counts as running.
    pub fn update(&mut self, processed: usize, total: usize, symbol: &str, message: &str)
        ensures
            final(self).running,
            final(self).progress matches Some(p) && p.processed == processed && p.total == total
                && p.current_symbol@ == symbol@ && p.message@ == message@,
            final(self).stats == old(self).stats,
            final(self).error == old(self).error,
    {
        self.running = true;
        self.progress = Some(
            DumpProgress {
                processed,
                total,
                current_symbol: owned(symbol),
                message: owned(message),
            },
        );
    }

    /// Ends the run with its statistics.
    pub fn complete(&mut self, stats: S)
        ensures
            !final(self).running,
            final(self).stats == Some(stats),
            final(self).progress is None,
            final(self).error is None,
    {
        self.running = false;
        self.stats = Some(stats);
        self.progress = None;
        self.error = None;
    }

    /// Ends the run with an error; earlier statistics are kept.
    pub fn fail(&mut self, error: String)
        ensures
            !final(self).running,
            final(self).error == Some(error),
            final(self).progress is None,
            final(self).stats == old(self).stats,
    {
        self.running = false;
        self.error = Some(error);
        self.progress = None;
    }

    /// Whether there is anything to report: a run in progress, or the
    /// result of the last one.
    pub fn has_snapshot(&self) -> (r: bool)
        ensures
            r == (self.running || self.stats is Some || self.error is Some),
    {
        self.running || self.stats.is_some() || self.error.is_some()
    }
}

// ── dump tally ─────────────────────────────────────────────────────────────
/// Outcome counts of a dump over the A-share stocks.
#[derive(Clone, Debug)]
pub struct DumpTally {
    /// One instrument line per stock written.
    pub instruments: Vec<String>,
    pub skipped: usize,
    pub failed: usize,
    pub failures: Vec<String>,
}

impl DumpTally {
    pub fn new() -> (r: DumpTally)
        ensures
            r.instruments@.len() == 0,
            r.skipped == 0,
            r.failed == 0,
            r.failures@.len() == 0,
    {
        DumpTally { instruments: Vec::new(), skipped: 0, failed: 0, failures: Vec::new() }
    }

    /// A stock written, with its instrument line.
    pub fn record_written(&mut self, line: String)
        ensures
            final(self).instruments@ == old(self).instruments@.push(line),
            final(self).skipped == old(self).skipped,
            final(self).failed == old(self).failed,
            final(self).failures@ == old(self).failures@,
    {
        self.instruments.push(line);
    }

    /// A stock without a file, without bars or without a calendar day.
    pub fn record_skipped(&mut self)
        requires
            old(self).skipped < usize::MAX,
        ensures
            final(self).instruments@ == old(self).instruments@,
            final(self).skipped == old(self).skipped + 1,
            final(self).failed == old(self).failed,
            final(self).failures@ == old(self).failures@,
    {
        self.skipped = self.skipped + 1;
    }

    /// A stock that failed: `{qlib_symbol}: {error}` is kept.
    pub fn record_failure(&mut self, qlib_symbol: &str, error: &str)
        requires
            old(self).failed < usize::MAX,
        ensures
            final(self).instruments@ == old(self).instruments@,
            final(self).skipped == old(self).skipped,
            final(self).failed == old(self).failed + 1,
            texts_view(final(self).failures@) == texts_view(old(self).failures@).push(
                qlib_symbol@ + ": "@ + error@,
            ),
    {
        self.failed = self.failed + 1;
        let mut line = String::new();
        push_str(&mut line, qlib_symbol);
        push_str(&mut line, ": ");
        push_str(&mut line, error);
        let ghost before = self.failures@;
        self.failures.push(line);
        proof {
            assert(texts_view(self.failures@) =~= texts_view(before).push(
                qlib_symbol@ + ": "@ + error@,
            ));
        }
    }
}

/// `lines` in ascending text order (the content of `instruments/all.txt`).
pub fn sorted_lines(lines: &Vec<String>) -> (r: Vec<String>)
    ensures
        r.len() == lines.len(),
        forall|i: int, j: int|
            0 <= i < j < r.len() ==> !seq_lt(#[trigger] r@[j]@, #[trigger] r@[i]@),
        exists|order: Seq<usize>|
            is_index_permutation(order, lines.len() as nat) && forall|q: int|
                0 <= q < r.len() ==> #[trigger] r@[q]@ == lines@[order[q] as int]@,
{
    let order = stable_text_order(lines);
    let ghost kv = texts_view(lines@);
    let mut r: Vec<String> = Vec::new();
    let mut q: usize = 0;
    while q < order.len()
        invariant
            0 <= q <= order.len(),
            kv == texts_view(lines@),
            is_index_permutation(order@, lines.len() as nat),
            stably_sorted(kv, order@),
            r.len() == q,
            forall|p: int| 0 <= p < q ==> #[trigger] r@[p]@ == lines@[order@[p] as int]@,
        decreases order.len() - q,
    {
        r.push(owned(lines[order[q]].as_str()));
        q = q + 1;
    }
    proof {
        assert forall|i: int, j: int| 0 <= i < j < r.len() implies !seq_lt(
            #[trigger] r@[j]@,
            #[trigger] r@[i]@,
        ) by {
            assert(r@[j]@ == kv[order@[j] as int]);
            assert(r@[i]@ == kv[order@[i] as int]);
        }
    }
    r
}

// ── laws of the calendar alignment ─────────────────────────────────────────
proof fn lemma_calendar_index_contains(cal: Seq<Seq<char>>, raw: u32)
    ensures
        last_calendar_index(cal, raw) >= 0 <==> cal.contains(iso_of(raw)),
{
    lemma_last_calendar_index(cal, raw);
    if cal.contains(iso_of(raw)) {
        let j = choose|j: int| 0 <= j < cal.len() && cal[j] == iso_of(raw);
        assert(cal[j] == iso_of(raw));
    }
}

/// A date's calendar position is the last calendar day with its text, and
/// there is none exactly when the calendar lacks that text.
pub proof fn law_calendar_position_is_last_match(cal: Seq<Seq<char>>, raw: u32)
    ensures
        last_calendar_index(cal, raw) >= 0 <==> cal.contains(iso_of(raw)),
        last_calendar_index(cal, raw) >= 0 ==> last_calendar_index(cal, raw) < cal.len()
            && cal[last_calendar_index(cal, raw)] == iso_of(raw),
        forall|j: int|
            last_calendar_index(cal, raw) < j < cal.len() ==> #[trigger] cal[j] != iso_of(raw),
{
    lemma_last_calendar_index(cal, raw);
    lemma_calendar_index_contains(cal, raw);
}

/// The span of a series starts at its first bar dated on a calendar day and
/// ends at its last one: the bars before the first and after the last such
/// bar are on no calendar day, and there is no span exactly when no bar is.
pub proof fn law_span_bars_are_first_and_last_aligned(bars: Seq<DayFields>, cal: Seq<Seq<char>>)
    ensures
        first_aligned_bar(bars, cal) < 0 <==> forall|j: int|
            0 <= j < bars.len() ==> !cal.contains(iso_of(#[trigger] bars[j].date)),
        first_aligned_bar(bars, cal) >= 0 ==> first_aligned_bar(bars, cal) < bars.len()
            && cal.contains(iso_of(bars[first_aligned_bar(bars, cal)].date)) && forall|j: int|
            0 <= j < first_aligned_bar(bars, cal) ==> !cal.contains(iso_of(#[trigger] bars[j].date)),
        last_aligned_bar(bars, cal) < 0 <==> first_aligned_bar(bars, cal) < 0,
        last_aligned_bar(bars, cal) >= 0 ==> last_aligned_bar(bars, cal) < bars.len()
            && cal.contains(iso_of(bars[last_aligned_bar(bars, cal)].date)) && forall|j: int|
            last_aligned_bar(bars, cal) < j < bars.len() ==> !cal.contains(
                iso_of(#[trigger] bars[j].date),
            ),
    decreases bars.len(),
{
    if bars.len() > 0 {
        let p = bars.drop_last();
        law_span_bars_are_first_and_last_aligned(p, cal);
        lemma_last_aligned_bound(bars, cal);
        lemma_first_aligned_bound(bars, cal);
        lemma_calendar_index_contains(cal, bars.last().date);
        assert(bars[bars.len() - 1] == bars.last());
        assert forall|j: int| 0 <= j < p.len() implies p[j] == bars[j] by {}
        if first_aligned_bar(p, cal) >= 0 {
            lemma_calendar_index_contains(cal, p[first_aligned_bar(p, cal)].date);
        }
        if last_aligned_bar(p, cal) >= 0 {
            assert(p[last_aligned_bar(p, cal)] == bars[last_aligned_bar(p, cal)]);
        }
        assert(first_aligned_bar(bars, cal) < 0 <==> forall|j: int|
            0 <= j < bars.len() ==> !cal.contains(iso_of(#[trigger] bars[j].date))) by {
            if first_aligned_bar(bars, cal) >= 0 {
                let f = first_aligned_bar(bars, cal);
                if f < p.len() {
                    assert(bars[f] == p[f]);
                }
            } else {
                assert forall|j: int| 0 <= j < bars.len() implies !cal.contains(
                    iso_of(#[trigger] bars[j].date),
                ) by {
                    if j < p.len() {
                        assert(bars[j] == p[j]);
                    }
                }
            }
        }
        assert forall|j: int| last_aligned_bar(bars, cal) < j < bars.len() implies !cal.contains(
            iso_of(#[trigger] bars[j].date),
        ) by {
            if j < p.len() {
                assert(bars[j] == p[j]);
            } else {
                assert(bars[j] == bars.last());
            }
        }
        assert forall|j: int| 0 <= j < first_aligned_bar(bars, cal) implies !cal.contains(
            iso_of(#[trigger] bars[j].date),
        ) by {
            assert(bars[j] == p[j]);
        }
    }
}

// ── laws of the A-share selection ──────────────────────────────────────────
proof fn lemma_utf8_len_at_least_len(s: Seq<char>)
    ensures
        utf8_len(s) >= s.len(),
        s.len() == 1 ==> utf8_len(s) == char_width(s[0]),
    decreases s.len(),
{
    if s.len() > 0 {
        lemma_utf8_len_at_least_len(s.drop_last());
        if s.len() == 1 {
            assert(s.drop_last().len() == 0);
            assert(s.last() == s[0]);
        }
    }
}

/// Which codes are A-share stocks, by their leading characters: in Shanghai
/// those starting `60` or `68`, in Shenzhen `00` or `30`, in Beijing `83`,
/// `87`, `88`, `43` or `920`; no other code of the market is one.
pub proof fn law_a_share_prefixes(code: Seq<char>)
    ensures
        spec_is_a_stock(Market::Sh, code) <==> (code.len() >= 2 && code[0] == '6' && (code[1] == '0'
            || code[1] == '8')),
        spec_is_a_stock(Market::Sz, code) <==> (code.len() >= 2 && (code[0] == '0' || code[0]
            == '3') && code[1] == '0'),
        spec_is_a_stock(Market::Bj, code) <==> (code.len() >= 2 && ((code[0] == '8' && (code[1]
            == '3' || code[1] == '7' || code[1] == '8')) || (code[0] == '4' && code[1] == '3') || (
        code.len() >= 3 && code[0] == '9' && code[1] == '2' && code[2] == '0'))),
{
    lemma_utf8_len_at_least_len(code);
    lemma_two_char_prefix(code, '8', '3');
    lemma_two_char_prefix(code, '8', '7');
    lemma_two_char_prefix(code, '8', '8');
    lemma_two_char_prefix(code, '4', '3');
    if code.len() >= 3 && code[0] == '9' && code[1] == '2' && code[2] == '0' {
        assert(code.take(3) =~= seq!['9', '2', '0']);
    }
    if has_prefix(code, seq!['9', '2', '0']) {
        assert(code.take(3)[0] == code[0] && code.take(3)[1] == code[1] && code.take(3)[2]
            == code[2]);
    }
    if code.len() == 0 {
        assert(utf8_len(code) == 0);
    }
}

// ── laws of gap filling ────────────────────────────────────────────────────
/// Gap filling keeps every valid value, and when the series has a valid
/// A gap takes the value of the nearest valid position before it: when `j`
/// is valid, `i > j` is a gap and nothing between them is valid, the filled
/// value at `i` is the value at `j`.
pub proof fn law_fill_takes_nearest_earlier_value<T>(arr: Seq<T>, has_value: Seq<bool>, i: int, j: int)
    requires
        arr.len() <= has_value.len(),
        0 <= j < i < arr.len(),
        has_value[j],
        !has_value[i],
        forall|k: int| j < k < i ==> !#[trigger] has_value[k],
    ensures
        filled_value(arr, has_value, i) == arr[j],
{
    lemma_last_valid_before(has_value, i);
    let l = last_valid_before(has_value, i);
    if l < j {
        assert(!has_value[j]);
    }
    if l > j {
        assert(!has_value[l]);
    }
}

/// A gap before every valid position takes the value of the first valid
/// one: when nothing before `j` is valid, `j` is valid and `i < j` is a gap,
/// the filled value at `i` is the value at `j`; with no valid position at
/// all every value stays.
pub proof fn law_fill_leading_gap_takes_first_value<T>(arr: Seq<T>, has_value: Seq<bool>, i: int, j: int)
    requires
        arr.len() <= has_value.len(),
        0 <= i < j < arr.len(),
        has_value[j],
        !has_value[i],
        forall|k: int| 0 <= k < j ==> !#[trigger] has_value[k],
    ensures
        filled_value(arr, has_value, i) == arr[j],
{
    let n = arr.len() as int;
    lemma_last_valid_before(has_value, i);
    lemma_first_valid_from(has_value, i + 1, n);
    let l = last_valid_before(has_value, i);
    if l >= 0 {
        assert(!has_value[l]);
    }
    let f = first_valid_from(has_value, i + 1, n);
    if f < 0 || f > j {
        assert(!has_value[j]);
    }
    if 0 <= f < j {
        assert(!has_value[f]);
    }
}

/// With no valid position, filling changes nothing.
pub proof fn law_fill_without_values_keeps_all<T>(arr: Seq<T>, has_value: Seq<bool>, i: int)
    requires
        arr.len() <= has_value.len(),
        0 <= i < arr.len(),
        forall|k: int| 0 <= k < arr.len() ==> !#[trigger] has_value[k],
    ensures
        filled_value(arr, has_value, i) == arr[i],
{
    let n = arr.len() as int;
    lemma_last_valid_before(has_value, i);
    lemma_first_valid_from(has_value, i + 1, n);
    let l = last_valid_before(has_value, i);
    if l >= 0 {
        assert(!has_value[l]);
    }
    let f = first_valid_from(has_value, i + 1, n);
    if f >= 0 {
        assert(!has_value[f]);
    }
}

/// value every position ends up holding one of the valid values.
pub proof fn law_fill_uses_valid_values<T>(arr: Seq<T>, has_value: Seq<bool>)
    requires
        arr.len() <= has_value.len(),
    ensures
        forall|i: int|
            0 <= i < arr.len() && has_value[i] ==> #[trigger] filled_value(arr, has_value, i)
                == arr[i],
        (exists|j: int| 0 <= j < arr.len() && has_value[j]) ==> forall|i: int|
            0 <= i < arr.len() ==> exists|j: int|
                0 <= j < arr.len() && has_value[j] && #[trigger] filled_value(arr, has_value, i)
                    == arr[j],
{
    let n = arr.len() as int;
    if exists|j: int| 0 <= j < n && has_value[j] {
        let w = choose|j: int| 0 <= j < n && has_value[j];
        assert forall|i: int| 0 <= i < n implies exists|j: int|
            0 <= j < n && has_value[j] && #[trigger] filled_value(arr, has_value, i) == arr[j] by {
            lemma_last_valid_before(has_value, i);
            lemma_first_valid_from(has_value, i + 1, n);
            if has_value[i] {
                assert(0 <= i < n && has_value[i] && filled_value(arr, has_value, i) == arr[i]);
            } else if last_valid_before(has_value, i) >= 0 {
                let j = last_valid_before(has_value, i);
                assert(0 <= j < n && has_value[j] && filled_value(arr, has_value, i) == arr[j]);
            } else {
                assert(w > i) by {
                    if w < i {
                        assert(!has_value[w]);
                    }
                }
                let j = first_valid_from(has_value, i + 1, n);
                assert(j >= 0) by {
                    if j < 0 {
                        assert(!has_value[w]);
                    }
                }
                assert(0 <= j < n && has_value[j] && filled_value(arr, has_value, i) == arr[j]);
            }
        }
    }
}

} // verus!
