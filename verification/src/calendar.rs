//! Building the trading calendar: from the bars of the benchmark index, in
//! full or only past the latest stored day, and from the Tushare calendar.
use vstd::prelude::*;
use crate::date::iso_of;
use crate::models::TradeCalendarRow;
use crate::tdx::day_file::DayRecord;
use crate::text::{owned, seq_lt, str_lt};
use crate::tushare::TradeCalDay;

verus! {

/// A calendar row as plain values: exchange, date, open flag, source,
/// update time.
pub open spec fn row_view(r: TradeCalendarRow) -> (Seq<char>, Seq<char>, i32, Seq<char>, Seq<char>) {
    (r.exchange@, r.trade_date@, r.is_open, r.source@, r.updated_at@)
}

pub open spec fn rows_view(v: Seq<TradeCalendarRow>) -> Seq<(Seq<char>, Seq<char>, i32, Seq<char>, Seq<char>)> {
    v.map_values(|r: TradeCalendarRow| row_view(r))
}

/// The dates of the bars that come after `latest` in text order (all of
/// them without a latest day), in bar order.
pub open spec fn dates_after(bars: Seq<DayRecord>, latest: Option<Seq<char>>) -> Seq<u32>
    decreases bars.len(),
{
    if bars.len() == 0 {
        seq![]
    } else {
        let rest = dates_after(bars.drop_last(), latest);
        let d = bars.last().date@;
        match latest {
            Some(l) => if seq_lt(l, iso_of(d)) {
                rest.push(d)
            } else {
                rest
            },
            None => rest.push(d),
        }
    }
}

/// An open day of `exchange` derived from the benchmark index.
pub open spec fn index_rows(exchange: Seq<char>, dates: Seq<u32>, now: Seq<char>) -> Seq<
    (Seq<char>, Seq<char>, i32, Seq<char>, Seq<char>),
> {
    dates.map_values(|d: u32| (exchange, iso_of(d), 1i32, "index_derived"@, now))
}

fn index_row(exchange: &str, bar: &DayRecord, now: &str) -> (r: TradeCalendarRow)
    ensures
        row_view(r) == (exchange@, iso_of(bar.date@), 1i32, "index_derived"@, now@),
{
    TradeCalendarRow {
        exchange: owned(exchange),
        trade_date: bar.date.format_iso(),
        is_open: 1,
        source: owned("index_derived"),
        updated_at: owned(now),
    }
}

/// The calendar rows of the bars that come after the stored `latest` day
/// (every bar when there is none), each an open day derived from the index.
pub fn index_calendar_rows(exchange: &str, bars: &Vec<DayRecord>, latest: &Option<String>, now: &str) -> (r:
    Vec<TradeCalendarRow>)
    ensures
        rows_view(r@) == index_rows(
            exchange@,
            dates_after(
                bars@,
                match latest {
                    Some(l) => Some(l@),
                    None => None,
                },
            ),
            now@,
        ),
{
    let ghost lv: Option<Seq<char>> = match latest {
        Some(l) => Some(l@),
        None => None,
    };
    let mut r: Vec<TradeCalendarRow> = Vec::new();
    let mut i: usize = 0;
    while i < bars.len()
        invariant
            0 <= i <= bars.len(),
            lv == (match latest {
                Some(l) => Some(l@),
                None => None::<Seq<char>>,
            }),
            rows_view(r@) == index_rows(exchange@, dates_after(bars@.take(i as int), lv), now@),
        decreases bars.len() - i,
    {
        proof {
            assert(bars@.take(i + 1).drop_last() =~= bars@.take(i as int));
            assert(bars@.take(i + 1).last() == bars@[i as int]);
        }
        let keep = match latest {
            Some(l) => {
                let t = bars[i].date.format_iso();
                str_lt(l.as_str(), t.as_str())
            },
            None => true,
        };
        if keep {
            let ghost before = r@;
            r.push(index_row(exchange, &bars[i], now));
            proof {
                let ds = dates_after(bars@.take(i as int), lv);
                assert(dates_after(bars@.take(i + 1), lv) == ds.push(bars@[i as int].date@));
                assert(rows_view(r@) =~= rows_view(before).push(
                    (exchange@, iso_of(bars@[i as int].date@), 1i32, "index_derived"@, now@),
                ));
                assert(index_rows(exchange@, ds.push(bars@[i as int].date@), now@) =~= index_rows(
                    exchange@,
                    ds,
                    now@,
                ).push((exchange@, iso_of(bars@[i as int].date@), 1i32, "index_derived"@, now@)));
            }
        }
        i = i + 1;
    }
    proof {
        assert(bars@.take(bars.len() as int) =~= bars@);
    }
    r
}

/// The Tushare days as calendar rows of `exchange`, open or closed as
/// Tushare says.
pub open spec fn tushare_rows(exchange: Seq<char>, days: Seq<TradeCalDay>, now: Seq<char>) -> Seq<
    (Seq<char>, Seq<char>, i32, Seq<char>, Seq<char>),
> {
    days.map_values(
        |d: TradeCalDay|
            (
                exchange,
                d.date@,
                if d.is_open {
                    1i32
                } else {
                    0i32
                },
                "tushare"@,
                now,
            ),
    )
}

pub fn tushare_calendar_rows(exchange: &str, days: &Vec<TradeCalDay>, now: &str) -> (r: Vec<
    TradeCalendarRow,
>)
    ensures
        rows_view(r@) == tushare_rows(exchange@, days@, now@),
{
    let mut r: Vec<TradeCalendarRow> = Vec::new();
    let mut i: usize = 0;
    while i < days.len()
        invariant
            0 <= i <= days.len(),
            rows_view(r@) == tushare_rows(exchange@, days@.take(i as int), now@),
        decreases days.len() - i,
    {
        let d = &days[i];
        let ghost before = r@;
        r.push(
            TradeCalendarRow {
                exchange: owned(exchange),
                trade_date: owned(d.date.as_str()),
                is_open: if d.is_open {
                    1
                } else {
                    0
                },
                source: owned("tushare"),
                updated_at: owned(now),
            },
        );
        proof {
            assert(days@.take(i + 1) =~= days@.take(i as int).push(days@[i as int]));
            assert(rows_view(r@) =~= rows_view(before).push(row_view(r@[i as int])));
            assert(tushare_rows(exchange@, days@.take(i + 1), now@) =~= tushare_rows(
                exchange@,
                days@.take(i as int),
                now@,
            ).push(row_view(r@[i as int])));
        }
        i = i + 1;
    }
    proof {
        assert(days@.take(days.len() as int) =~= days@);
    }
    r
}

// ── laws ───────────────────────────────────────────────────────────────────
/// An incremental calendar update adds only days after the stored latest
/// day, and every bar dated after it.
pub proof fn law_incremental_rows_after_latest(bars: Seq<DayRecord>, latest: Seq<char>)
    ensures
        forall|k: int|
            0 <= k < dates_after(bars, Some(latest)).len() ==> seq_lt(
                latest,
                iso_of(#[trigger] dates_after(bars, Some(latest))[k]),
            ),
        forall|k: int|
            0 <= k < bars.len() && seq_lt(latest, iso_of(#[trigger] bars[k].date@))
                ==> dates_after(bars, Some(latest)).contains(bars[k].date@),
    decreases bars.len(),
{
    if bars.len() > 0 {
        let prev = bars.drop_last();
        law_incremental_rows_after_latest(prev, latest);
        let r = dates_after(bars, Some(latest));
        let rp = dates_after(prev, Some(latest));
        assert forall|k: int| 0 <= k < r.len() implies seq_lt(latest, iso_of(#[trigger] r[k])) by {
            if k < rp.len() {
                assert(r[k] == rp[k]);
            }
        }
        assert forall|k: int| 0 <= k < bars.len() && seq_lt(latest, iso_of(#[trigger] bars[k].date@))
            implies r.contains(bars[k].date@) by {
            if k < bars.len() - 1 {
                assert(prev[k] == bars[k]);
                assert(rp.contains(prev[k].date@));
                let j = choose|j: int| 0 <= j < rp.len() && rp[j] == prev[k].date@;
                assert(r[j] == rp[j]);
            } else {
                assert(r[r.len() - 1] == bars[k].date@);
            }
        }
    }
}

} // verus!
