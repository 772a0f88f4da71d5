//! Adjustment factors: the quality tier of the factor source, the factor
//! rows written per stock, the lag scan of the stored factor files, and the
//! lookup of the factor that applies to a bar.
use vstd::prelude::*;
use crate::date::iso_of;
use crate::tdx::day_file::DayRecord;
use crate::tdx::paths::{Market, spec_dir_name};
use crate::text::{
    chars_lt, chars_of, owned, push_char, push_str, seq_lt, str_lt, texts_view, stable_text_order,
    is_index_permutation, lists_index, stably_sorted, lemma_seq_lt_le, lemma_seq_lt_asym,
    lemma_seq_lt_total, lemma_seq_le_trans,
};

verus! {

/// How trustworthy the available adjustment factors are, `L0` best.
#[derive(Clone, Copy, Debug, PartialEq, Eq, Structural)]
pub enum AdjFactorTier {
    L0,
    L1,
    L2,
    L3,
}

pub open spec fn tier_name(t: AdjFactorTier) -> Seq<char> {
    match t {
        AdjFactorTier::L0 => "L0"@,
        AdjFactorTier::L1 => "L1"@,
        AdjFactorTier::L2 => "L2"@,
        AdjFactorTier::L3 => "L3"@,
    }
}

impl AdjFactorTier {
    /// The tier's name as stored and shown.
    pub fn name(self) -> (r: &'static str)
        ensures
            r@ == tier_name(self),
    {
        match self {
            AdjFactorTier::L0 => "L0",
            AdjFactorTier::L1 => "L1",
            AdjFactorTier::L2 => "L2",
            AdjFactorTier::L3 => "L3",
        }
    }
}

/// The tier after probing Tushare: `L0` when Tushare is usable and the
/// probe went through, `L3` otherwise.
pub fn probed_tier(tushare_usable: bool, probe_ok: bool) -> (r: AdjFactorTier)
    ensures
        r == (if tushare_usable && probe_ok {
            AdjFactorTier::L0
        } else {
            AdjFactorTier::L3
        }),
{
    if !tushare_usable {
        return AdjFactorTier::L3;
    }
    if probe_ok {
        AdjFactorTier::L0
    } else {
        AdjFactorTier::L3
    }
}

/// `复权因子降级等级变化: {old} -> {new}`.
pub fn tier_change_message(old: &str, new: &str) -> (r: String)
    ensures
        r@ == "复权因子降级等级变化: "@ + old@ + " -> "@ + new@,
{
    let mut r = String::new();
    push_str(&mut r, "复权因子降级等级变化: ");
    push_str(&mut r, old);
    push_str(&mut r, " -> ");
    push_str(&mut r, new);
    r
}

/// The trade dates of the factor rows written for a stock: one per bar, in
/// bar order, as `YYYY-MM-DD` (each row carries the factor 1).
pub fn factor_row_dates(bars: &Vec<DayRecord>) -> (r: Vec<String>)
    ensures
        texts_view(r@) == bars@.map_values(|b: DayRecord| iso_of(b.date@)),
{
    let mut r: Vec<String> = Vec::new();
    let mut i: usize = 0;
    while i < bars.len()
        invariant
            0 <= i <= bars.len(),
            texts_view(r@) == bars@.take(i as int).map_values(|b: DayRecord| iso_of(b.date@)),
        decreases bars.len() - i,
    {
        let ghost before = r@;
        let t = bars[i].date.format_iso();
        r.push(t);
        proof {
            assert(texts_view(r@) =~= texts_view(before).push(iso_of(bars@[i as int].date@)));
            assert(bars@.take(i + 1).map_values(|b: DayRecord| iso_of(b.date@)) =~= bars@.take(
                i as int,
            ).map_values(|b: DayRecord| iso_of(b.date@)).push(iso_of(bars@[i as int].date@)));
        }
        i = i + 1;
    }
    assert(bars@.take(bars.len() as int) =~= bars@);
    r
}

/// `计算 {market}#{symbol}`: the progress message of the factor sync.
pub fn sync_progress_message(m: Market, symbol: &str) -> (r: String)
    ensures
        r@ == "计算 "@ + spec_dir_name(m) + seq!['#'] + symbol@,
{
    let mut r = String::new();
    push_str(&mut r, "计算 ");
    push_str(&mut r, m.dir_name());
    push_char(&mut r, '#');
    push_str(&mut r, symbol);
    proof {
        assert(r@ =~= "计算 "@ + spec_dir_name(m) + seq!['#'] + symbol@);
    }
    r
}

// ── factor lag scan ────────────────────────────────────────────────────────
/// Why a factor file is listed by the scan.
#[derive(Clone, Debug)]
pub enum FactorLagDetail {
    /// Its last factor date (empty for an empty file) is before the latest
    /// trading day.
    Behind(String),
    /// It could not be read; the error text.
    Unreadable(String),
}

#[derive(Clone, Debug)]
pub struct FactorLag {
    pub market: String,
    pub symbol: String,
    pub detail: FactorLagDetail,
}

/// The report of a factor scan, filled one file at a time.
#[derive(Clone, Debug)]
pub struct AdjFactorScan {
    pub total_factors: i64,
    pub unique_symbols: i64,
    pub lagging: Vec<FactorLag>,
}

/// The date of the last factor row, empty when there is none.
pub open spec fn last_factor_date(dates: Seq<Seq<char>>) -> Seq<char> {
    if dates.len() == 0 {
        Seq::<char>::empty()
    } else {
        dates.last()
    }
}

impl AdjFactorScan {
    pub fn new() -> (r: AdjFactorScan)
        ensures
            r.total_factors == 0,
            r.unique_symbols == 0,
            r.lagging@.len() == 0,
    {
        AdjFactorScan { total_factors: 0, unique_symbols: 0, lagging: Vec::new() }
    }

    /// Records a readable factor file with the given row dates: its rows
    /// and the symbol are counted, and it is listed as behind when its last
    /// date comes before the latest trading day (when there is one).
    pub fn record_file(&mut self, market: &str, symbol: &str, dates: &Vec<String>, latest: &Option<String>)
        requires
            dates.len() <= i64::MAX,
            old(self).total_factors + dates.len() <= i64::MAX,
            old(self).unique_symbols < i64::MAX,
        ensures
            final(self).total_factors == old(self).total_factors + dates.len(),
            final(self).unique_symbols == old(self).unique_symbols + 1,
            match latest {
                Some(l) => if seq_lt(last_factor_date(texts_view(dates@)), l@) {
                    final(self).lagging@.len() == old(self).lagging@.len() + 1
                        && final(self).lagging@.take(old(self).lagging@.len() as int)
                        == old(self).lagging@ && final(self).lagging@.last().market@ == market@
                        && final(self).lagging@.last().symbol@ == symbol@
                        && (final(self).lagging@.last().detail matches FactorLagDetail::Behind(d)
                        && d@ == last_factor_date(texts_view(dates@)))
                } else {
                    final(self).lagging@ == old(self).lagging@
                },
                None => final(self).lagging@ == old(self).lagging@,
            },
    {
        self.total_factors = self.total_factors + dates.len() as i64;
        self.unique_symbols = self.unique_symbols + 1;
        match latest {
            Some(l) => {
                let last = if dates.len() == 0 {
                    String::new()
                } else {
                    owned(dates[dates.len() - 1].as_str())
                };
                if str_lt(last.as_str(), l.as_str()) {
                    let ghost before = self.lagging@;
                    self.lagging.push(
                        FactorLag {
                            market: owned(market),
                            symbol: owned(symbol),
                            detail: FactorLagDetail::Behind(last),
                        },
                    );
                    assert(self.lagging@.take(before.len() as int) =~= before);
                }
            },
            None => {},
        }
    }

    /// Records a factor file that could not be read.
    pub fn record_unreadable(&mut self, market: &str, symbol: &str, error: &str)
        ensures
            final(self).total_factors == old(self).total_factors,
            final(self).unique_symbols == old(self).unique_symbols,
            final(self).lagging@.len() == old(self).lagging@.len() + 1,
            final(self).lagging@.take(old(self).lagging@.len() as int) == old(self).lagging@,
            final(self).lagging@.last().market@ == market@,
            final(self).lagging@.last().symbol@ == symbol@,
            (final(self).lagging@.last().detail matches FactorLagDetail::Unreadable(e) && e@
                == "无法读取: "@ + error@),
    {
        let mut e = String::new();
        push_str(&mut e, "无法读取: ");
        push_str(&mut e, error);
        let ghost before = self.lagging@;
        self.lagging.push(
            FactorLag { market: owned(market), symbol: owned(symbol), detail: FactorLagDetail::Unreadable(e) },
        );
        assert(self.lagging@.take(before.len() as int) =~= before);
    }
}

// ── factor lookup ──────────────────────────────────────────────────────────
/// `i` is the row whose factor applies on `date`: the latest row dated no
/// later than `date`, the last such row among rows of the same date.
pub open spec fn applies_on(dates: Seq<Seq<char>>, date: Seq<char>, i: int) -> bool {
    &&& 0 <= i < dates.len()
    &&& !seq_lt(date, dates[i])
    &&& forall|j: int|
        0 <= j < dates.len() && !seq_lt(date, #[trigger] dates[j]) ==> !seq_lt(dates[i], dates[j])
            && (dates[j] == dates[i] ==> j <= i)
}

/// `i` is the row with the latest date, the last such row among rows of
/// the same date.
pub open spec fn is_latest(dates: Seq<Seq<char>>, i: int) -> bool {
    &&& 0 <= i < dates.len()
    &&& forall|j: int|
        0 <= j < dates.len() ==> !seq_lt(dates[i], #[trigger] dates[j]) && (dates[j] == dates[i]
            ==> j <= i)
}

/// The factor rows of a stock ordered by date, for looking up the factor of
/// each bar.
pub struct FactorTable {
    dates: Vec<String>,
    order: Vec<usize>,
    sorted: Vec<Vec<char>>,
}

impl View for FactorTable {
    type V = Seq<Seq<char>>;

    closed spec fn view(&self) -> Seq<Seq<char>> {
        texts_view(self.dates@)
    }
}

impl FactorTable {
    #[verifier::type_invariant]
    spec fn wf(self) -> bool {
        &&& is_index_permutation(self.order@, self.dates@.len())
        &&& stably_sorted(texts_view(self.dates@), self.order@)
        &&& self.sorted@.len() == self.order@.len()
        &&& forall|q: int|
            0 <= q < self.order@.len() ==> #[trigger] self.sorted@[q]@ == self.dates@[self.order@[q] as int]@
    }

    /// The table of the rows with the given dates, in row order.
    pub fn new(dates: Vec<String>) -> (r: FactorTable)
        ensures
            r@ == texts_view(dates@),
    {
        let order = stable_text_order(&dates);
        let mut sorted: Vec<Vec<char>> = Vec::new();
        let mut q: usize = 0;
        while q < order.len()
            invariant
                0 <= q <= order.len(),
                is_index_permutation(order@, dates@.len()),
                sorted@.len() == q,
                forall|p: int| 0 <= p < q ==> #[trigger] sorted@[p]@ == dates@[order@[p] as int]@,
            decreases order.len() - q,
        {
            sorted.push(chars_of(dates[order[q]].as_str()));
            q = q + 1;
        }
        FactorTable { dates, order, sorted }
    }

    pub fn len(&self) -> (r: usize)
        ensures
            r == self@.len(),
    {
        self.dates.len()
    }

    /// The row whose factor applies on `date`, or `None` when every row is
    /// dated later (the factor is then 1).
    pub fn lookup(&self, date: &str) -> (r: Option<usize>)
        ensures
            match r {
                Some(i) => applies_on(self@, date@, i as int),
                None => forall|j: int| 0 <= j < self@.len() ==> seq_lt(date@, #[trigger] self@[j]),
            },
    {
        proof {
            use_type_invariant(self);
        }
        let ghost kv = texts_view(self.dates@);
        let ghost o = self.order@;
        let x = chars_of(date);
        let mut lo: usize = 0;
        let mut hi: usize = self.order.len();
        while lo < hi
            invariant
                0 <= lo <= hi <= o.len(),
                o == self.order@,
                kv == texts_view(self.dates@),
                x@ == date@,
                is_index_permutation(o, kv.len()),
                stably_sorted(kv, o),
                self.sorted@.len() == o.len(),
                forall|q: int| 0 <= q < o.len() ==> #[trigger] self.sorted@[q]@ == kv[o[q] as int],
                forall|q: int| 0 <= q < lo ==> !seq_lt(date@, #[trigger] kv[o[q] as int]),
                forall|q: int| hi <= q < o.len() ==> seq_lt(date@, #[trigger] kv[o[q] as int]),
            decreases hi - lo,
        {
            let mid = lo + (hi - lo) / 2;
            assert(self.sorted@[mid as int]@ == kv[o[mid as int] as int]);
            if chars_lt(&x, &self.sorted[mid]) {
                proof {
                    assert forall|q: int| mid <= q < o.len() implies seq_lt(
                        date@,
                        #[trigger] kv[o[q] as int],
                    ) by {
                        if q > mid {
                            lemma_seq_lt_le(date@, kv[o[mid as int] as int], kv[o[q] as int]);
                        }
                    }
                }
                hi = mid;
            } else {
                proof {
                    assert forall|q: int| 0 <= q < mid + 1 implies !seq_lt(
                        date@,
                        #[trigger] kv[o[q] as int],
                    ) by {
                        if q < mid && seq_lt(date@, kv[o[q] as int]) {
                            lemma_seq_lt_le(date@, kv[o[q] as int], kv[o[mid as int] as int]);
                        }
                    }
                }
                lo = mid + 1;
            }
        }
        if lo == 0 {
            proof {
                assert forall|j: int| 0 <= j < kv.len() implies seq_lt(date@, #[trigger] kv[j]) by {
                    assert(lists_index(o, j as usize));
                    let q = choose|q: int| 0 <= q < o.len() && o[q] == j as usize;
                    assert(seq_lt(date@, kv[o[q] as int]));
                }
            }
            None
        } else {
            let i = self.order[lo - 1];
            proof {
                let p = lo - 1;
                assert(!seq_lt(date@, kv[o[p] as int]));
                assert forall|j: int| 0 <= j < kv.len() && !seq_lt(date@, #[trigger] kv[j]) implies !seq_lt(
                    kv[i as int],
                    kv[j],
                ) && (kv[j] == kv[i as int] ==> j <= i) by {
                    assert(lists_index(o, j as usize));
                    let q = choose|q: int| 0 <= q < o.len() && o[q] == j as usize;
                    if q >= lo {
                        assert(seq_lt(date@, kv[o[q] as int]));
                    }
                    if q < p {
                        assert(o[q] == j);
                    } else {
                        assert(q == p);
                        lemma_seq_lt_asym(kv[j], kv[j]);
                    }
                }
            }
            Some(i)
        }
    }

    /// The row with the latest date, or `None` for an empty table (the
    /// latest factor is then 1).
    pub fn latest(&self) -> (r: Option<usize>)
        ensures
            match r {
                Some(i) => is_latest(self@, i as int),
                None => self@.len() == 0,
            },
    {
        proof {
            use_type_invariant(self);
        }
        let n = self.order.len();
        if n == 0 {
            return None;
        }
        let i = self.order[n - 1];
        proof {
            let kv = texts_view(self.dates@);
            let o = self.order@;
            assert forall|j: int| 0 <= j < kv.len() implies !seq_lt(kv[i as int], #[trigger] kv[j])
                && (kv[j] == kv[i as int] ==> j <= i) by {
                assert(lists_index(o, j as usize));
                let q = choose|q: int| 0 <= q < o.len() && o[q] == j as usize;
                if q == n - 1 {
                    lemma_seq_lt_asym(kv[j], kv[j]);
                }
            }
        }
        Some(i)
    }
}

} // verus!
