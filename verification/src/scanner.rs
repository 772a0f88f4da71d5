//! Integrity scan of the local daily bars against the trading calendar.
//!
//! For every symbol the scan reports how many trading days its file lags
//! behind the calendar, and the runs of trading days that are missing inside
//! the span the file covers.  Dates are compared as `%Y-%m-%d` text, the way
//! the calendar stores them.
use vstd::prelude::*;
use std::collections::HashSet;
use crate::date::{TradeDate, iso_of, is_valid_raw, date_from_iso_text};
use crate::text::{seq_lt, str_lt, owned, texts_view, lemma_seq_lt_total, lemma_seq_lt_trans};
use crate::tdx::day_file::DayRecord;
use crate::tdx::paths::Market;

verus! {

broadcast use vstd::std_specs::hash::group_hash_axioms;

/// The `%Y-%m-%d` text of each bar's date.
pub open spec fn bar_texts(bars: Seq<DayRecord>) -> Seq<Seq<char>> {
    bars.map_values(|b: DayRecord| iso_of(b.date@))
}

/// How many of `days` lie strictly after `from` and no later than `to`.
pub open spec fn days_between(days: Seq<Seq<char>>, from: Seq<char>, to: Seq<char>) -> nat
    decreases days.len(),
{
    if days.len() == 0 {
        0
    } else {
        days_between(days.drop_last(), from, to) + if seq_lt(from, days.last()) && !seq_lt(
            to,
            days.last(),
        ) {
            1nat
        } else {
            0nat
        }
    }
}

/// State of the walk over the calendar that collects the gaps of one file.
pub struct GapWalk {
    /// Closed runs of missing days, as `(first, last)`.
    pub gaps: Seq<(Seq<char>, Seq<char>)>,
    /// The run being extended, if the last day seen was missing.
    pub open: Option<(Seq<char>, Seq<char>)>,
    /// A day after the end of the file was reached.
    pub stopped: bool,
}

/// One calendar day of the walk: days before `start` are passed over, the
/// first day after `end` ends the walk, a missing day extends the open run,
/// and a present day closes it.
pub open spec fn gap_step(
    w: GapWalk,
    day: Seq<char>,
    present: bool,
    start: Seq<char>,
    end: Seq<char>,
) -> GapWalk {
    if w.stopped || seq_lt(day, start) {
        w
    } else if seq_lt(end, day) {
        GapWalk { stopped: true, ..w }
    } else if !present {
        GapWalk {
            open: Some(
                (
                    match w.open {
                        Some(g) => g.0,
                        None => day,
                    },
                    day,
                ),
            ),
            ..w
        }
    } else {
        match w.open {
            Some(g) => GapWalk { gaps: w.gaps.push(g), open: None, ..w },
            None => w,
        }
    }
}

pub open spec fn gap_walk(
    days: Seq<Seq<char>>,
    texts: Seq<Seq<char>>,
    start: Seq<char>,
    end: Seq<char>,
) -> GapWalk
    decreases days.len(),
{
    if days.len() == 0 {
        GapWalk { gaps: seq![], open: None, stopped: false }
    } else {
        gap_step(
            gap_walk(days.drop_last(), texts, start, end),
            days.last(),
            texts.contains(days.last()),
            start,
            end,
        )
    }
}

/// The runs of consecutive calendar days in `[start, end]` that `texts`
/// lacks, in calendar order, each as `(first, last)`.
pub open spec fn gap_ranges(
    days: Seq<Seq<char>>,
    texts: Seq<Seq<char>>,
    start: Seq<char>,
    end: Seq<char>,
) -> Seq<(Seq<char>, Seq<char>)> {
    let w = gap_walk(days, texts, start, end);
    match w.open {
        Some(g) => w.gaps.push(g),
        None => w.gaps,
    }
}

/// A run of missing trading days, first and last day included.
#[derive(Clone, Debug)]
pub struct GapRange {
    pub start: String,
    pub end: String,
}

pub open spec fn gaps_view(v: Seq<GapRange>) -> Seq<(Seq<char>, Seq<char>)> {
    v.map_values(|g: GapRange| (g.start@, g.end@))
}

/// What the scan finds in one non-empty file.
#[derive(Clone, Debug)]
pub struct SymbolScan {
    /// Date of the last bar.
    pub latest_date: String,
    /// Trading days after the last bar, up to the last calendar day.
    pub lag_days: usize,
    pub gaps: Vec<GapRange>,
}

/// The lag of a file whose last bar is dated `file_latest` against a
/// calendar whose last day is `latest`.
pub open spec fn lag_of(days: Seq<Seq<char>>, file_latest: Seq<char>) -> nat {
    if seq_lt(file_latest, days.last()) {
        days_between(days, file_latest, days.last())
    } else {
        0
    }
}

proof fn lemma_days_between_bound(days: Seq<Seq<char>>, from: Seq<char>, to: Seq<char>)
    ensures
        days_between(days, from, to) <= days.len(),
    decreases days.len(),
{
    if days.len() > 0 {
        lemma_days_between_bound(days.drop_last(), from, to);
    }
}

/// Whether the text `s` is the date of one of the bars, through a set of
/// the bars' packed dates.
fn has_bar_on(dates: &HashSet<u32>, bars: &Vec<DayRecord>, s: &String) -> (r: bool)
    requires
        forall|raw: u32|
            #[trigger] dates@.contains(raw) <==> (exists|j: int|
                0 <= j < bars.len() && bars@[j].date@ == raw),
    ensures
        r == bar_texts(bars@).contains(s@),
{
    let key = date_from_iso_text(s.as_str());
    match key {
        Some(d) => {
            let raw = d.raw();
            let r = dates.contains(&raw);
            proof {
                let t = bar_texts(bars@);
                if r {
                    let j = choose|j: int| 0 <= j < bars.len() && bars@[j].date@ == raw;
                    assert(t[j] == s@);
                } else {
                    assert forall|j: int| 0 <= j < t.len() implies t[j] != s@ by {
                        bars@[j].date.lemma_valid();
                        if t[j] == s@ {
                            assert(iso_of(bars@[j].date@) == s@);
                        }
                    }
                }
            }
            r
        },
        None => {
            proof {
                let t = bar_texts(bars@);
                assert forall|j: int| 0 <= j < t.len() implies t[j] != s@ by {
                    bars@[j].date.lemma_valid();
                    if t[j] == s@ {
                        assert(iso_of(bars@[j].date@) == s@);
                    }
                }
            }
            false
        },
    }
}

/// Lag and gaps of one non-empty file against a non-empty calendar.
pub fn scan_symbol_bars(days: &Vec<String>, bars: &Vec<DayRecord>) -> (r: SymbolScan)
    requires
        days.len() > 0,
        bars.len() > 0,
    ensures
        r.latest_date@ == iso_of(bars@.last().date@),
        r.lag_days == lag_of(texts_view(days@), iso_of(bars@.last().date@)),
        gaps_view(r.gaps@) == gap_ranges(
            texts_view(days@),
            bar_texts(bars@),
            iso_of(bars@[0].date@),
            iso_of(bars@.last().date@),
        ),
{
    let ghost dv = texts_view(days@);
    let ghost texts = bar_texts(bars@);
    let latest = &days[days.len() - 1];
    assert(latest@ == dv.last());
    let file_latest = bars[bars.len() - 1].date.format_iso();
    let file_start = bars[0].date.format_iso();
    // Lag.
    let mut lag: usize = 0;
    if str_lt(file_latest.as_str(), latest.as_str()) {
        let mut i: usize = 0;
        while i < days.len()
            invariant
                0 <= i <= days.len(),
                dv == texts_view(days@),
                lag == days_between(dv.take(i as int), file_latest@, latest@),
                lag <= i,
            decreases days.len() - i,
        {
            proof {
                assert(dv.take(i + 1).drop_last() =~= dv.take(i as int));
            }
            if str_lt(file_latest.as_str(), days[i].as_str()) && !str_lt(
                latest.as_str(),
                days[i].as_str(),
            ) {
                lag = lag + 1;
            }
            i = i + 1;
        }
        assert(dv.take(days.len() as int) =~= dv);
    }
    // Packed dates of the bars.
    let mut dates: HashSet<u32> = HashSet::new();
    let mut b: usize = 0;
    while b < bars.len()
        invariant
            0 <= b <= bars.len(),
            forall|raw: u32|
                #[trigger] dates@.contains(raw) <==> (exists|j: int|
                    0 <= j < b && bars@[j].date@ == raw),
        decreases bars.len() - b,
    {
        let raw = bars[b].date.raw();
        dates.insert(raw);
        proof {
            assert forall|x: u32| #[trigger] dates@.contains(x) <==> exists|j: int|
                0 <= j < b + 1 && bars@[j].date@ == x by {
                if x == raw {
                    assert(bars@[b as int].date@ == x);
                }
            }
        }
        b = b + 1;
    }
    // Gaps.
    let mut gaps: Vec<GapRange> = Vec::new();
    let mut open: Option<(String, String)> = None;
    let mut stopped = false;
    let mut k: usize = 0;
    while k < days.len() && !stopped
        invariant
            0 <= k <= days.len(),
            dv == texts_view(days@),
            texts == bar_texts(bars@),
            forall|raw: u32|
                #[trigger] dates@.contains(raw) <==> (exists|j: int|
                    0 <= j < bars.len() && bars@[j].date@ == raw),
            gap_walk(dv.take(k as int), texts, file_start@, file_latest@).stopped == stopped,
            gaps_view(gaps@) == gap_walk(dv.take(k as int), texts, file_start@, file_latest@).gaps,
            match open {
                Some(g) => gap_walk(dv.take(k as int), texts, file_start@, file_latest@).open
                    == Some((g.0@, g.1@)),
                None => (gap_walk(dv.take(k as int), texts, file_start@, file_latest@).open
                    is None),
            },
        decreases days.len() - k,
    {
        let ghost w = gap_walk(dv.take(k as int), texts, file_start@, file_latest@);
        proof {
            assert(dv.take(k + 1).drop_last() =~= dv.take(k as int));
            assert(dv.take(k + 1).last() == days@[k as int]@);
        }
        let day = &days[k];
        if str_lt(day.as_str(), file_start.as_str()) {
        } else if str_lt(file_latest.as_str(), day.as_str()) {
            stopped = true;
        } else {
            let present = has_bar_on(&dates, bars, day);
            if !present {
                let first = match &open {
                    Some(g) => owned(g.0.as_str()),
                    None => owned(day.as_str()),
                };
                open = Some((first, owned(day.as_str())));
            } else {
                let taken = open;
                open = None;
                match taken {
                    Some(g) => {
                        gaps.push(GapRange { start: g.0, end: g.1 });
                        proof {
                            assert(gaps_view(gaps@) =~= w.gaps.push(w.open.unwrap()));
                        }
                    },
                    None => {},
                }
            }
        }
        k = k + 1;
    }
    proof {
        if stopped {
            lemma_walk_stays_stopped(dv, texts, file_start@, file_latest@, k as int);
        } else {
            assert(dv.take(k as int) =~= dv);
        }
    }
    let ghost wf = gap_walk(dv, texts, file_start@, file_latest@);
    match open {
        Some(g) => {
            gaps.push(GapRange { start: g.0, end: g.1 });
            proof {
                assert(gaps_view(gaps@) =~= wf.gaps.push(wf.open.unwrap()));
            }
        },
        None => {},
    }
    proof {
        lemma_days_between_bound(dv, file_latest@, latest@);
    }
    SymbolScan { latest_date: file_latest, lag_days: lag, gaps }
}

/// Once the walk has stopped it stays stopped, and nothing changes.
proof fn lemma_walk_stays_stopped(
    days: Seq<Seq<char>>,
    texts: Seq<Seq<char>>,
    start: Seq<char>,
    end: Seq<char>,
    k: int,
)
    requires
        0 <= k <= days.len(),
        gap_walk(days.take(k), texts, start, end).stopped,
    ensures
        gap_walk(days, texts, start, end).stopped,
        gap_walk(days, texts, start, end).gaps == gap_walk(days.take(k), texts, start, end).gaps,
        gap_walk(days, texts, start, end).open == gap_walk(days.take(k), texts, start, end).open,
    decreases days.len() - k,
{
    if k < days.len() {
        assert(days.take(k + 1).drop_last() =~= days.take(k));
        lemma_walk_stays_stopped(days, texts, start, end, k + 1);
    } else {
        assert(days.take(k) =~= days);
    }
}

// ── the whole scan ─────────────────────────────────────────────────────────
/// Why a symbol's file counts as missing.
#[derive(Clone, Debug)]
pub enum MissingReason {
    /// No `.day` file at the expected path.
    NoFile,
    /// The file holds no bars.
    EmptyFile,
    /// The file could not be read; the error text.
    ReadError(String),
}

pub enum MissingReasonView {
    NoFile,
    EmptyFile,
    ReadError(Seq<char>),
}

pub open spec fn reason_view(r: MissingReason) -> MissingReasonView {
    match r {
        MissingReason::NoFile => MissingReasonView::NoFile,
        MissingReason::EmptyFile => MissingReasonView::EmptyFile,
        MissingReason::ReadError(e) => MissingReasonView::ReadError(e@),
    }
}

#[derive(Clone, Debug)]
pub struct MissingFile {
    pub market: Market,
    pub symbol: String,
    pub reason: MissingReason,
}

#[derive(Clone, Debug)]
pub struct GapEntry {
    pub market: Market,
    pub symbol: String,
    pub start: String,
    pub end: String,
}

#[derive(Clone, Debug)]
pub struct LagEntry {
    pub market: Market,
    pub symbol: String,
    pub latest_date: String,
    pub lag_days: usize,
}

pub open spec fn missing_view(v: Seq<MissingFile>) -> Seq<(Market, Seq<char>, MissingReasonView)> {
    v.map_values(|m: MissingFile| (m.market, m.symbol@, reason_view(m.reason)))
}

pub open spec fn gap_entries_view(v: Seq<GapEntry>) -> Seq<(Market, Seq<char>, Seq<char>, Seq<char>)> {
    v.map_values(|g: GapEntry| (g.market, g.symbol@, g.start@, g.end@))
}

pub open spec fn lag_entries_view(v: Seq<LagEntry>) -> Seq<(Market, Seq<char>, Seq<char>, nat)> {
    v.map_values(|l: LagEntry| (l.market, l.symbol@, l.latest_date@, l.lag_days as nat))
}

/// The gaps of one symbol, each tagged with the symbol.
pub open spec fn tagged_gaps(
    market: Market,
    symbol: Seq<char>,
    g: Seq<(Seq<char>, Seq<char>)>,
) -> Seq<(Market, Seq<char>, Seq<char>, Seq<char>)> {
    g.map_values(|x: (Seq<char>, Seq<char>)| (market, symbol, x.0, x.1))
}

/// The report of a daily-bar scan, filled one symbol at a time.
#[derive(Clone, Debug)]
pub struct DailyBarsScan {
    pub total_symbols: usize,
    pub missing_files: Vec<MissingFile>,
    pub gaps: Vec<GapEntry>,
    pub lags: Vec<LagEntry>,
}

impl DailyBarsScan {
    /// An empty report for a scan over `total_symbols` files.
    pub fn new(total_symbols: usize) -> (r: DailyBarsScan)
        ensures
            r.total_symbols == total_symbols,
            r.missing_files@.len() == 0,
            r.gaps@.len() == 0,
            r.lags@.len() == 0,
    {
        DailyBarsScan {
            total_symbols,
            missing_files: Vec::new(),
            gaps: Vec::new(),
            lags: Vec::new(),
        }
    }

    /// Records a symbol whose file is absent or unreadable.
    pub fn record_missing(&mut self, market: Market, symbol: &str, reason: MissingReason)
        ensures
            final(self).total_symbols == old(self).total_symbols,
            missing_view(final(self).missing_files@) == missing_view(old(self).missing_files@).push(
                (market, symbol@, reason_view(reason)),
            ),
            final(self).gaps@ == old(self).gaps@,
            final(self).lags@ == old(self).lags@,
    {
        let ghost before = missing_view(self.missing_files@);
        self.missing_files.push(MissingFile { market, symbol: owned(symbol), reason });
        proof {
            assert(missing_view(self.missing_files@) =~= before.push(
                (market, symbol@, reason_view(reason)),
            ));
        }
    }

    /// Records the bars read from a symbol's file, against the calendar
    /// `days`: an empty file counts as missing; otherwise its lag, when
    /// positive, and its gaps are added.
    pub fn record_bars(&mut self, market: Market, symbol: &str, days: &Vec<String>, bars: &Vec<DayRecord>)
        requires
            days.len() > 0,
        ensures
            final(self).total_symbols == old(self).total_symbols,
            missing_view(final(self).missing_files@) == (if bars.len() == 0 {
                missing_view(old(self).missing_files@).push(
                    (market, symbol@, MissingReasonView::EmptyFile),
                )
            } else {
                missing_view(old(self).missing_files@)
            }),
            lag_entries_view(final(self).lags@) == (if bars.len() > 0 && lag_of(
                texts_view(days@),
                iso_of(bars@.last().date@),
            ) > 0 {
                lag_entries_view(old(self).lags@).push(
                    (
                        market,
                        symbol@,
                        iso_of(bars@.last().date@),
                        lag_of(texts_view(days@), iso_of(bars@.last().date@)),
                    ),
                )
            } else {
                lag_entries_view(old(self).lags@)
            }),
            gap_entries_view(final(self).gaps@) == (if bars.len() > 0 {
                gap_entries_view(old(self).gaps@) + tagged_gaps(
                    market,
                    symbol@,
                    gap_ranges(
                        texts_view(days@),
                        bar_texts(bars@),
                        iso_of(bars@[0].date@),
                        iso_of(bars@.last().date@),
                    ),
                )
            } else {
                gap_entries_view(old(self).gaps@)
            }),
    {
        if bars.len() == 0 {
            let ghost before = missing_view(self.missing_files@);
            self.missing_files.push(
                MissingFile { market, symbol: owned(symbol), reason: MissingReason::EmptyFile },
            );
            proof {
                assert(missing_view(self.missing_files@) =~= before.push(
                    (market, symbol@, MissingReasonView::EmptyFile),
                ));
            }
            return;
        }
        let scan = scan_symbol_bars(days, bars);
        if scan.lag_days > 0 {
            let ghost before = lag_entries_view(self.lags@);
            let latest = owned(scan.latest_date.as_str());
            self.lags.push(
                LagEntry { market, symbol: owned(symbol), latest_date: latest, lag_days: scan.lag_days },
            );
            proof {
                assert(lag_entries_view(self.lags@) =~= before.push(
                    (market, symbol@, scan.latest_date@, scan.lag_days as nat),
                ));
            }
        }
        let ghost g0 = gap_entries_view(self.gaps@);
        let ghost found = gaps_view(scan.gaps@);
        let ghost lags0 = self.lags@;
        let mut i: usize = 0;
        while i < scan.gaps.len()
            invariant
                0 <= i <= scan.gaps.len(),
                found == gaps_view(scan.gaps@),
                self.total_symbols == old(self).total_symbols,
                self.missing_files@ == old(self).missing_files@,
                self.lags@ == lags0,
                gap_entries_view(self.gaps@) == g0 + tagged_gaps(
                    market,
                    symbol@,
                    found.take(i as int),
                ),
            decreases scan.gaps.len() - i,
        {
            let g = &scan.gaps[i];
            let ghost prev = self.gaps@;
            assert(found[i as int] == (g.start@, g.end@));
            self.gaps.push(
                GapEntry {
                    market,
                    symbol: owned(symbol),
                    start: owned(g.start.as_str()),
                    end: owned(g.end.as_str()),
                },
            );
            proof {
                assert(found.take(i + 1) =~= found.take(i as int).push(found[i as int]));
                assert(tagged_gaps(market, symbol@, found.take(i + 1)) =~= tagged_gaps(
                    market,
                    symbol@,
                    found.take(i as int),
                ).push((market, symbol@, found[i as int].0, found[i as int].1)));
                assert(gap_entries_view(self.gaps@) =~= gap_entries_view(prev).push(
                    (market, symbol@, found[i as int].0, found[i as int].1),
                ));
                assert(gap_entries_view(self.gaps@) =~= g0 + tagged_gaps(
                    market,
                    symbol@,
                    found.take(i + 1),
                ));
            }
            i = i + 1;
        }
        proof {
            assert(found.take(scan.gaps.len() as int) =~= found);
        }
    }
}

// ── scan kinds ─────────────────────────────────────────────────────────────
/// The scans the service runs.
#[derive(Clone, Copy, Debug, PartialEq, Eq, Structural)]
pub enum ScanKind {
    DailyBars,
    Xdxr,
    AdjFactors,
}

pub open spec fn scan_name(k: ScanKind) -> Seq<char> {
    match k {
        ScanKind::DailyBars => "daily_bars"@,
        ScanKind::Xdxr => "xdxr"@,
        ScanKind::AdjFactors => "adj_factors"@,
    }
}

impl ScanKind {
    /// The scan type as stored with its results.
    pub fn as_str(self) -> (r: &'static str)
        ensures
            r@ == scan_name(self),
    {
        match self {
            ScanKind::DailyBars => "daily_bars",
            ScanKind::Xdxr => "xdxr",
            ScanKind::AdjFactors => "adj_factors",
        }
    }

    /// The scan a type name asks for, or `None` for an unknown name.
    pub fn parse(s: &str) -> (r: Option<ScanKind>)
        ensures
            r matches Some(k) ==> scan_name(k) == s@,
            r is None ==> s@ != scan_name(ScanKind::DailyBars) && s@ != scan_name(ScanKind::Xdxr)
                && s@ != scan_name(ScanKind::AdjFactors),
    {
        let v = crate::text::chars_of(s);
        let a = crate::text::chars_of("daily_bars");
        let b = crate::text::chars_of("xdxr");
        let c = crate::text::chars_of("adj_factors");
        if crate::text::chars_eq(&v, &a) {
            Some(ScanKind::DailyBars)
        } else if crate::text::chars_eq(&v, &b) {
            Some(ScanKind::Xdxr)
        } else if crate::text::chars_eq(&v, &c) {
            Some(ScanKind::AdjFactors)
        } else {
            None
        }
    }
}

/// `unknown scan type: {name}`.
pub fn unknown_scan_message(name: &str) -> (r: String)
    ensures
        r@ == "unknown scan type: "@ + name@,
{
    let mut r = String::new();
    crate::text::push_str(&mut r, "unknown scan type: ");
    crate::text::push_str(&mut r, name);
    r
}

// ── laws ───────────────────────────────────────────────────────────────────
/// A reported run starts and ends on calendar days that the file lacks and
/// that lie within its span.
pub open spec fn gap_ok(
    g: (Seq<char>, Seq<char>),
    days: Seq<Seq<char>>,
    texts: Seq<Seq<char>>,
    start: Seq<char>,
    end: Seq<char>,
) -> bool {
    &&& days.contains(g.0) && days.contains(g.1)
    &&& !texts.contains(g.0) && !texts.contains(g.1)
    &&& !seq_lt(g.0, start) && !seq_lt(end, g.0)
    &&& !seq_lt(g.1, start) && !seq_lt(end, g.1)
}

pub open spec fn walk_ok(
    w: GapWalk,
    days: Seq<Seq<char>>,
    texts: Seq<Seq<char>>,
    start: Seq<char>,
    end: Seq<char>,
) -> bool {
    &&& forall|k: int| 0 <= k < w.gaps.len() ==> gap_ok(#[trigger] w.gaps[k], days, texts, start, end)
    &&& w.open matches Some(g) ==> gap_ok(g, days, texts, start, end)
}

proof fn lemma_gap_ok_grow(
    g: (Seq<char>, Seq<char>),
    days: Seq<Seq<char>>,
    texts: Seq<Seq<char>>,
    start: Seq<char>,
    end: Seq<char>,
)
    requires
        days.len() > 0,
        gap_ok(g, days.drop_last(), texts, start, end),
    ensures
        gap_ok(g, days, texts, start, end),
{
    let i0 = choose|i: int| 0 <= i < days.drop_last().len() && days.drop_last()[i] == g.0;
    let i1 = choose|i: int| 0 <= i < days.drop_last().len() && days.drop_last()[i] == g.1;
    assert(days[i0] == g.0);
    assert(days[i1] == g.1);
}

proof fn lemma_walk_ok(days: Seq<Seq<char>>, texts: Seq<Seq<char>>, start: Seq<char>, end: Seq<char>)
    ensures
        walk_ok(gap_walk(days, texts, start, end), days, texts, start, end),
    decreases days.len(),
{
    if days.len() > 0 {
        let prev = days.drop_last();
        lemma_walk_ok(prev, texts, start, end);
        let w = gap_walk(prev, texts, start, end);
        assert forall|k: int| 0 <= k < w.gaps.len() implies gap_ok(
            #[trigger] w.gaps[k],
            days,
            texts,
            start,
            end,
        ) by {
            lemma_gap_ok_grow(w.gaps[k], days, texts, start, end);
        }
        if w.open is Some {
            lemma_gap_ok_grow(w.open.unwrap(), days, texts, start, end);
        }
        let d = days.last();
        assert(days[days.len() - 1] == d);
        lemma_seq_lt_total(d, start);
        lemma_seq_lt_total(end, d);
        let w2 = gap_walk(days, texts, start, end);
        assert forall|k: int| 0 <= k < w2.gaps.len() implies gap_ok(
            #[trigger] w2.gaps[k],
            days,
            texts,
            start,
            end,
        ) by {
            if k < w.gaps.len() {
                assert(w2.gaps[k] == w.gaps[k]);
            }
        }
    }
}

/// Every run of missing days the scan reports starts and ends on calendar
/// days that the file lacks and that lie between its first and last bar.
pub proof fn law_gaps_are_missing_days(
    days: Seq<Seq<char>>,
    texts: Seq<Seq<char>>,
    start: Seq<char>,
    end: Seq<char>,
)
    ensures
        forall|k: int|
            0 <= k < gap_ranges(days, texts, start, end).len() ==> gap_ok(
                #[trigger] gap_ranges(days, texts, start, end)[k],
                days,
                texts,
                start,
                end,
            ),
{
    lemma_walk_ok(days, texts, start, end);
}

/// A calendar whose days are strictly ascending.
pub open spec fn ascending_days(days: Seq<Seq<char>>) -> bool {
    forall|a: int, b: int| 0 <= a < b < days.len() ==> seq_lt(#[trigger] days[a], #[trigger] days[b])
}

/// Calendar day `m` lies in `[start, end]` and the file has no bar on it.
pub open spec fn missing_day(
    days: Seq<Seq<char>>,
    texts: Seq<Seq<char>>,
    start: Seq<char>,
    end: Seq<char>,
    m: int,
) -> bool {
    &&& 0 <= m < days.len()
    &&& !seq_lt(days[m], start) && !seq_lt(end, days[m])
    &&& !texts.contains(days[m])
}

/// Calendar days `i..=j` are a maximal run of missing days: all of them are
/// missing, and the days just before and just after (where there are such)
/// are not.
pub open spec fn is_gap_run(
    days: Seq<Seq<char>>,
    texts: Seq<Seq<char>>,
    start: Seq<char>,
    end: Seq<char>,
    i: int,
    j: int,
) -> bool {
    &&& 0 <= i <= j < days.len()
    &&& forall|m: int| i <= m <= j ==> #[trigger] missing_day(days, texts, start, end, m)
    &&& i == 0 || !missing_day(days, texts, start, end, i - 1)
    &&& j == days.len() - 1 || !missing_day(days, texts, start, end, j + 1)
}

/// `g` is the first and last day of a maximal run of missing days.
pub open spec fn is_reported_run(
    days: Seq<Seq<char>>,
    texts: Seq<Seq<char>>,
    start: Seq<char>,
    end: Seq<char>,
    g: (Seq<char>, Seq<char>),
) -> bool {
    exists|i: int, j: int| #[trigger] is_gap_run(days, texts, start, end, i, j) && g == (days[i], days[j])
}

/// The gap walk by calendar index.
struct IdxWalk {
    gaps: Seq<(int, int)>,
    open: Option<(int, int)>,
    stop: Option<int>,
}

spec fn idx_walk(
    days: Seq<Seq<char>>,
    texts: Seq<Seq<char>>,
    start: Seq<char>,
    end: Seq<char>,
    n: nat,
) -> IdxWalk
    decreases n,
{
    if n == 0 {
        IdxWalk { gaps: seq![], open: None, stop: None }
    } else {
        let w = idx_walk(days, texts, start, end, (n - 1) as nat);
        let k = n - 1;
        let d = days[k];
        if w.stop is Some || seq_lt(d, start) {
            w
        } else if seq_lt(end, d) {
            IdxWalk { stop: Some(k), ..w }
        } else if !texts.contains(d) {
            IdxWalk {
                open: Some(
                    (
                        match w.open {
                            Some(p) => p.0,
                            None => k,
                        },
                        k,
                    ),
                ),
                ..w
            }
        } else {
            match w.open {
                Some(p) => IdxWalk { gaps: w.gaps.push(p), open: None, ..w },
                None => w,
            }
        }
    }
}

spec fn pair_days(days: Seq<Seq<char>>, p: (int, int)) -> (Seq<char>, Seq<char>) {
    (days[p.0], days[p.1])
}

proof fn lemma_idx_walk_matches(
    days: Seq<Seq<char>>,
    texts: Seq<Seq<char>>,
    start: Seq<char>,
    end: Seq<char>,
    n: nat,
)
    requires
        n <= days.len(),
    ensures
        gap_walk(days.take(n as int), texts, start, end).stopped == (idx_walk(
            days,
            texts,
            start,
            end,
            n,
        ).stop is Some),
        gap_walk(days.take(n as int), texts, start, end).gaps.len() == idx_walk(
            days,
            texts,
            start,
            end,
            n,
        ).gaps.len(),
        forall|k: int|
            0 <= k < idx_walk(days, texts, start, end, n).gaps.len() ==> gap_walk(
                days.take(n as int),
                texts,
                start,
                end,
            ).gaps[k] == pair_days(days, #[trigger] idx_walk(days, texts, start, end, n).gaps[k]),
        match idx_walk(days, texts, start, end, n).open {
            Some(p) => gap_walk(days.take(n as int), texts, start, end).open == Some(
                pair_days(days, p),
            ),
            None => gap_walk(days.take(n as int), texts, start, end).open is None,
        },
    decreases n,
{
    if n > 0 {
        let n1 = (n - 1) as nat;
        lemma_idx_walk_matches(days, texts, start, end, n1);
        assert(days.take(n as int).drop_last() =~= days.take(n1 as int));
        assert(days.take(n as int).last() == days[n - 1]);
        let w = gap_walk(days.take(n1 as int), texts, start, end);
        let v = idx_walk(days, texts, start, end, n1);
        let w2 = gap_walk(days.take(n as int), texts, start, end);
        let v2 = idx_walk(days, texts, start, end, n);
        assert forall|k: int| 0 <= k < v2.gaps.len() implies w2.gaps[k] == pair_days(
            days,
            #[trigger] v2.gaps[k],
        ) by {
            if k < v.gaps.len() {
                assert(v2.gaps[k] == v.gaps[k]);
                assert(w2.gaps[k] == w.gaps[k]);
            }
        }
    }
}

spec fn closed_run_ok(
    days: Seq<Seq<char>>,
    texts: Seq<Seq<char>>,
    start: Seq<char>,
    end: Seq<char>,
    p: (int, int),
    n: int,
) -> bool {
    &&& 0 <= p.0 <= p.1 && p.1 + 1 < n
    &&& forall|m: int| p.0 <= m <= p.1 ==> #[trigger] missing_day(days, texts, start, end, m)
    &&& p.0 == 0 || !missing_day(days, texts, start, end, p.0 - 1)
    &&& !missing_day(days, texts, start, end, p.1 + 1)
}

spec fn covered(v: IdxWalk, m: int) -> bool {
    ||| exists|k: int| 0 <= k < v.gaps.len() && (#[trigger] v.gaps[k]).0 <= m <= v.gaps[k].1
    ||| v.open matches Some(p) && p.0 <= m <= p.1
}

spec fn idx_walk_inv(
    days: Seq<Seq<char>>,
    texts: Seq<Seq<char>>,
    start: Seq<char>,
    end: Seq<char>,
    n: int,
    v: IdxWalk,
) -> bool {
    &&& forall|k: int|
        0 <= k < v.gaps.len() ==> closed_run_ok(days, texts, start, end, #[trigger] v.gaps[k], n)
    &&& v.open matches Some(p) ==> {
        &&& 0 <= p.0 <= p.1 < n
        &&& forall|m: int| p.0 <= m <= p.1 ==> #[trigger] missing_day(days, texts, start, end, m)
        &&& p.0 == 0 || !missing_day(days, texts, start, end, p.0 - 1)
        &&& v.stop is None ==> p.1 == n - 1
        &&& v.stop is Some ==> p.1 + 1 < n && !missing_day(days, texts, start, end, p.1 + 1)
    }
    &&& v.stop matches Some(s) ==> 0 <= s < n && seq_lt(end, days[s])
    &&& (v.open is None && v.stop is None && n > 0) ==> !missing_day(days, texts, start, end, n - 1)
    &&& forall|m: int|
        0 <= m < n && #[trigger] missing_day(days, texts, start, end, m) ==> covered(v, m)
}

proof fn lemma_idx_walk_inv(
    days: Seq<Seq<char>>,
    texts: Seq<Seq<char>>,
    start: Seq<char>,
    end: Seq<char>,
    n: nat,
)
    requires
        n <= days.len(),
        ascending_days(days),
    ensures
        idx_walk_inv(days, texts, start, end, n as int, idx_walk(days, texts, start, end, n)),
    decreases n,
{
    if n > 0 {
        let n1 = (n - 1) as nat;
        lemma_idx_walk_inv(days, texts, start, end, n1);
        let v = idx_walk(days, texts, start, end, n1);
        let v2 = idx_walk(days, texts, start, end, n);
        let k = n1 as int;
        let d = days[k];
        assert forall|q: int|
            0 <= q < v.gaps.len() implies closed_run_ok(
            days,
            texts,
            start,
            end,
            #[trigger] v.gaps[q],
            n as int,
        ) by {
            assert(closed_run_ok(days, texts, start, end, v.gaps[q], k));
        }
        if let Some(s) = v.stop {
            assert(!missing_day(days, texts, start, end, k)) by {
                assert(seq_lt(days[s], days[k]));
                lemma_seq_lt_trans(end, days[s], days[k]);
            }
            assert forall|m: int|
                0 <= m < n && #[trigger] missing_day(days, texts, start, end, m) implies covered(
                v2,
                m,
            ) by {
                if m < k {
                    assert(covered(v, m));
                }
            }
        } else if seq_lt(d, start) {
            if let Some(p) = v.open {
                assert(missing_day(days, texts, start, end, p.1));
                assert(seq_lt(days[p.1], days[k]));
                lemma_seq_lt_trans(days[p.1], d, start);
                assert(false);
            }
            assert forall|m: int|
                0 <= m < n && #[trigger] missing_day(days, texts, start, end, m) implies covered(
                v2,
                m,
            ) by {
                if m < k {
                    assert(covered(v, m));
                }
            }
        } else if seq_lt(end, d) {
            assert forall|m: int|
                0 <= m < n && #[trigger] missing_day(days, texts, start, end, m) implies covered(
                v2,
                m,
            ) by {
                if m < k {
                    assert(covered(v, m));
                    if exists|q: int| 0 <= q < v.gaps.len() && (#[trigger] v.gaps[q]).0 <= m <= v.gaps[q].1 {
                        let q = choose|q: int| 0 <= q < v.gaps.len() && (#[trigger] v.gaps[q]).0 <= m <= v.gaps[q].1;
                        assert(v2.gaps[q] == v.gaps[q]);
                    }
                }
            }
        } else if !texts.contains(d) {
            assert(missing_day(days, texts, start, end, k));
            let p2 = v2.open.unwrap();
            assert forall|m: int| p2.0 <= m <= p2.1 implies #[trigger] missing_day(
                days,
                texts,
                start,
                end,
                m,
            ) by {
                if m < k {
                    let p = v.open.unwrap();
                    assert(p.0 <= m <= p.1);
                }
            }
            assert forall|m: int|
                0 <= m < n && #[trigger] missing_day(days, texts, start, end, m) implies covered(
                v2,
                m,
            ) by {
                if m < k {
                    assert(covered(v, m));
                    if exists|q: int| 0 <= q < v.gaps.len() && (#[trigger] v.gaps[q]).0 <= m <= v.gaps[q].1 {
                        let q = choose|q: int| 0 <= q < v.gaps.len() && (#[trigger] v.gaps[q]).0 <= m <= v.gaps[q].1;
                        assert(v2.gaps[q] == v.gaps[q]);
                    }
                }
            }
        } else {
            assert(!missing_day(days, texts, start, end, k));
            if let Some(p) = v.open {
                assert(v2.gaps.last() == p);
                assert forall|q: int|
                    0 <= q < v2.gaps.len() implies closed_run_ok(
                    days,
                    texts,
                    start,
                    end,
                    #[trigger] v2.gaps[q],
                    n as int,
                ) by {
                    if q < v.gaps.len() {
                        assert(v2.gaps[q] == v.gaps[q]);
                    }
                }
                assert forall|m: int|
                    0 <= m < n && #[trigger] missing_day(days, texts, start, end, m) implies covered(
                    v2,
                    m,
                ) by {
                    if m < k {
                        assert(covered(v, m));
                        if exists|q: int| 0 <= q < v.gaps.len() && (#[trigger] v.gaps[q]).0 <= m <= v.gaps[q].1 {
                            let q = choose|q: int| 0 <= q < v.gaps.len() && (#[trigger] v.gaps[q]).0 <= m <= v.gaps[q].1;
                            assert(v2.gaps[q] == v.gaps[q]);
                        } else {
                            assert(v2.gaps[v.gaps.len() as int] == p);
                        }
                    }
                }
            } else {
                assert forall|m: int|
                    0 <= m < n && #[trigger] missing_day(days, texts, start, end, m) implies covered(
                    v2,
                    m,
                ) by {
                    if m < k {
                        assert(covered(v, m));
                    }
                }
            }
        }
    }
}

/// On an ascending calendar the scan reports exactly the maximal runs of
/// missing days: each reported run is the first and last day of such a run,
/// and every missing day lies in a reported run.
pub proof fn law_gaps_are_maximal_runs(
    days: Seq<Seq<char>>,
    texts: Seq<Seq<char>>,
    start: Seq<char>,
    end: Seq<char>,
)
    requires
        ascending_days(days),
    ensures
        forall|k: int|
            0 <= k < gap_ranges(days, texts, start, end).len() ==> is_reported_run(
                days,
                texts,
                start,
                end,
                #[trigger] gap_ranges(days, texts, start, end)[k],
            ),
        forall|m: int|
            #[trigger] missing_day(days, texts, start, end, m) ==> exists|k: int, i: int, j: int|
                #![trigger is_gap_run(days, texts, start, end, i, j), gap_ranges(days, texts, start, end)[k]]
                0 <= k < gap_ranges(days, texts, start, end).len() && is_gap_run(
                    days,
                    texts,
                    start,
                    end,
                    i,
                    j,
                ) && i <= m <= j && gap_ranges(days, texts, start, end)[k] == (days[i], days[j]),
{
    let n = days.len();
    lemma_idx_walk_matches(days, texts, start, end, n);
    lemma_idx_walk_inv(days, texts, start, end, n);
    assert(days.take(n as int) =~= days);
    let g = gap_ranges(days, texts, start, end);
    let w = gap_walk(days, texts, start, end);
    let v = idx_walk(days, texts, start, end, n);
    let idx = match v.open {
        Some(p) => v.gaps.push(p),
        None => v.gaps,
    };
    assert(g.len() == idx.len());
    assert forall|k: int| 0 <= k < g.len() implies g[k] == pair_days(days, idx[k]) && is_gap_run(
        days,
        texts,
        start,
        end,
        idx[k].0,
        idx[k].1,
    ) by {
        if k < v.gaps.len() {
            assert(idx[k] == v.gaps[k]);
            assert(closed_run_ok(days, texts, start, end, v.gaps[k], n as int));
        } else {
            assert(idx[k] == v.open.unwrap());
        }
    }
    assert forall|k: int| 0 <= k < g.len() implies is_reported_run(
        days,
        texts,
        start,
        end,
        #[trigger] g[k],
    ) by {
        assert(g[k] == pair_days(days, idx[k]));
        assert(is_gap_run(days, texts, start, end, idx[k].0, idx[k].1));
        assert(g[k] == (days[idx[k].0], days[idx[k].1]));
    }
    assert forall|m: int| #[trigger] missing_day(days, texts, start, end, m) implies exists|
        k: int,
        i: int,
        j: int,
    |
        #![trigger is_gap_run(days, texts, start, end, i, j), g[k]]
        0 <= k < g.len() && is_gap_run(days, texts, start, end, i, j) && i <= m <= j
            && g[k] == (days[i], days[j]) by {
        assert(covered(v, m));
        if exists|q: int| 0 <= q < v.gaps.len() && (#[trigger] v.gaps[q]).0 <= m <= v.gaps[q].1 {
            let q = choose|q: int| 0 <= q < v.gaps.len() && (#[trigger] v.gaps[q]).0 <= m <= v.gaps[q].1;
            assert(idx[q] == v.gaps[q]);
            assert(g[q] == pair_days(days, idx[q]));
            assert(is_gap_run(days, texts, start, end, idx[q].0, idx[q].1));
            assert(g[q] == (days[idx[q].0], days[idx[q].1]));
        } else {
            let q = v.gaps.len() as int;
            assert(idx[q] == v.open.unwrap());
            assert(g[q] == pair_days(days, idx[q]));
            assert(is_gap_run(days, texts, start, end, idx[q].0, idx[q].1));
            assert(g[q] == (days[idx[q].0], days[idx[q].1]));
        }
    }
}

} // verus!
