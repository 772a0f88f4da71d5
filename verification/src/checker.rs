//! Data freshness: how the local `.day` files compare with the latest trading
//! day known from the calendar or from a TDX server.
use vstd::prelude::*;
use crate::date::{
    CalendarDay, TradeDate, date_key, day_number, iso_of, iso_text, parse_date, raw_day, raw_month,
    raw_year, chrono_parse_iso,
};
use crate::tdx::paths::{Market, spec_dir_name};
use crate::text::{chars_of, has_prefix, has_prefix_at, owned, push_str};

verus! {

// ── local inventory ────────────────────────────────────────────────────────
/// One local `.day` file: its key `"{market}/{symbol}"`, market and last date.
#[derive(Clone, Debug)]
pub struct InventoryEntry {
    pub key: String,
    pub market: Market,
    pub date: TradeDate,
}

/// The last bar date of every local `.day` file, keyed by
/// `"{market}/{symbol}"`; a key occurs at most once.
pub struct LocalInventory {
    entries: Vec<InventoryEntry>,
}

pub open spec fn entry_view(e: InventoryEntry) -> (Seq<char>, Market, u32) {
    (e.key@, e.market, e.date@)
}

pub open spec fn distinct_keys(s: Seq<(Seq<char>, Market, u32)>) -> bool {
    forall|i: int, j: int| 0 <= i < j < s.len() ==> s[i].0 != s[j].0
}

/// Index of the entry with key `k`, or -1.
pub open spec fn key_index(s: Seq<(Seq<char>, Market, u32)>, k: Seq<char>) -> int
    decreases s.len(),
{
    if s.len() == 0 {
        -1
    } else if s.last().0 == k {
        s.len() - 1
    } else {
        key_index(s.drop_last(), k)
    }
}

impl View for LocalInventory {
    type V = Seq<(Seq<char>, Market, u32)>;

    closed spec fn view(&self) -> Seq<(Seq<char>, Market, u32)> {
        self.entries@.map_values(|e: InventoryEntry| entry_view(e))
    }
}

proof fn lemma_key_index(s: Seq<(Seq<char>, Market, u32)>, k: Seq<char>)
    ensures
        -1 <= key_index(s, k) < s.len(),
        key_index(s, k) >= 0 ==> s[key_index(s, k)].0 == k,
        key_index(s, k) < 0 ==> forall|i: int| 0 <= i < s.len() ==> #[trigger] s[i].0 != k,
    decreases s.len(),
{
    if s.len() > 0 && s.last().0 != k {
        lemma_key_index(s.drop_last(), k);
        if key_index(s, k) < 0 {
            assert forall|i: int| 0 <= i < s.len() implies #[trigger] s[i].0 != k by {
                if i < s.len() - 1 {
                    assert(s.drop_last()[i] == s[i]);
                }
            }
        }
    }
}

impl LocalInventory {
    #[verifier::type_invariant]
    spec fn wf(self) -> bool {
        distinct_keys(self@)
    }

    pub fn new() -> (r: LocalInventory)
        ensures
            r@ == Seq::<(Seq<char>, Market, u32)>::empty(),
    {
        let r = LocalInventory { entries: Vec::new() };
        assert(r@ =~= Seq::<(Seq<char>, Market, u32)>::empty());
        r
    }

    pub fn len(&self) -> (r: usize)
        ensures
            r == self@.len(),
    {
        self.entries.len()
    }

    /// Records `date` as the last date of `key`, replacing an earlier record
    /// of the same key.
    pub fn insert(&mut self, key: String, market: Market, date: TradeDate)
        ensures
            final(self)@ == if key_index(old(self)@, key@) >= 0 {
                old(self)@.update(key_index(old(self)@, key@), (key@, market, date@))
            } else {
                old(self)@.push((key@, market, date@))
            },
    {
        proof {
            use_type_invariant(&*self);
            lemma_key_index(self@, key@);
        }
        let ghost s = self@;
        let mut i: usize = self.entries.len();
        while i > 0 && !(self.entries[i - 1].key == key)
            invariant
                0 <= i <= self.entries.len(),
                s == self@,
                s == self.entries@.map_values(|e: InventoryEntry| entry_view(e)),
                distinct_keys(s),
                key_index(s, key@) < i,
            decreases i,
        {
            proof {
                lemma_key_index_suffix(s, key@, i as int);
            }
            i = i - 1;
        }
        let entry = InventoryEntry { key, market, date };
        let ghost v = entry_view(entry);
        if i > 0 {
            proof {
                assert(s[i - 1].0 == key@);
                lemma_key_index_last_match(s, key@, i as int - 1);
            }
            let mut entries: Vec<InventoryEntry> = Vec::new();
            std::mem::swap(&mut entries, &mut self.entries);
            entries.set(i - 1, entry);
            proof {
                assert(entries@.map_values(|e: InventoryEntry| entry_view(e)) =~= s.update(
                    i - 1,
                    v,
                ));
                let u = s.update(i - 1, v);
                assert forall|a: int, b: int| 0 <= a < b < u.len() implies #[trigger] u[a].0
                    != #[trigger] u[b].0 by {
                    assert(s[a].0 != s[b].0);
                }
            }
            self.entries = entries;
        } else {
            proof {
                assert(key_index(s, key@) < 0);
            }
            let mut entries: Vec<InventoryEntry> = Vec::new();
            std::mem::swap(&mut entries, &mut self.entries);
            entries.push(entry);
            proof {
                assert(entries@.map_values(|e: InventoryEntry| entry_view(e)) =~= s.push(v));
                let u = s.push(v);
                assert forall|a: int, b: int| 0 <= a < b < u.len() implies #[trigger] u[a].0
                    != #[trigger] u[b].0 by {
                    if b == s.len() {
                        assert(s[a].0 != key@);
                    }
                }
            }
            self.entries = entries;
        }
    }
}

proof fn lemma_key_index_suffix(s: Seq<(Seq<char>, Market, u32)>, k: Seq<char>, i: int)
    requires
        0 < i <= s.len(),
        s[i - 1].0 != k,
        key_index(s, k) < i,
        distinct_keys(s),
    ensures
        key_index(s, k) < i - 1,
{
    lemma_key_index(s, k);
}

proof fn lemma_key_index_last_match(s: Seq<(Seq<char>, Market, u32)>, k: Seq<char>, j: int)
    requires
        0 <= j < s.len(),
        s[j].0 == k,
        distinct_keys(s),
    ensures
        key_index(s, k) == j,
    decreases s.len(),
{
    if j < s.len() - 1 {
        assert(s.last().0 != k) by {
            assert(s[s.len() - 1].0 != s[j].0);
        }
        assert(s.drop_last()[j] == s[j]);
        assert(distinct_keys(s.drop_last())) by {
            assert forall|a: int, b: int| 0 <= a < b < s.drop_last().len() implies s.drop_last()[a].0
                != s.drop_last()[b].0 by {
                assert(s.drop_last()[a] == s[a] && s.drop_last()[b] == s[b]);
            }
        }
        lemma_key_index_last_match(s.drop_last(), k, j);
    }
}

// ── per-market freshness ───────────────────────────────────────────────────
#[derive(Clone, Debug)]
pub struct MarketFreshness {
    pub market: String,
    pub server_latest_date: Option<String>,
    pub local_latest_date: Option<String>,
    pub days_behind: Option<i64>,
    pub total_stocks: usize,
    pub up_to_date_stocks: usize,
    pub behind_stocks: usize,
    pub missing_stocks: usize,
    /// `"up_to_date"`, `"behind"`, `"no_data"` or `"server_unreachable"`.
    pub status: String,
}

/// `"{market}/"`, the key prefix of a market's files.
pub open spec fn market_prefix(m: Market) -> Seq<char> {
    spec_dir_name(m).push('/')
}

/// The last dates of the inventory entries of market `m`, in inventory order.
pub open spec fn market_dates(s: Seq<(Seq<char>, Market, u32)>, m: Market) -> Seq<u32>
    decreases s.len(),
{
    if s.len() == 0 {
        Seq::empty()
    } else {
        let rest = market_dates(s.drop_last(), m);
        if has_prefix(s.last().0, market_prefix(m)) {
            rest.push(s.last().2)
        } else {
            rest
        }
    }
}

/// The latest of `d`, if any.
pub open spec fn max_date(d: Seq<u32>) -> Option<u32>
    decreases d.len(),
{
    if d.len() == 0 {
        None
    } else {
        match max_date(d.drop_last()) {
            Some(m) => if m >= d.last() {
                Some(m)
            } else {
                Some(d.last())
            },
            None => Some(d.last()),
        }
    }
}

/// How many of `d` are on or after `s`.
pub open spec fn count_at_least(d: Seq<u32>, s: int) -> nat
    decreases d.len(),
{
    if d.len() == 0 {
        0
    } else {
        count_at_least(d.drop_last(), s) + if d.last() >= s {
            1nat
        } else {
            0nat
        }
    }
}

pub open spec fn day_number_of(d: u32) -> int {
    day_number(raw_year(d), raw_month(d), raw_day(d))
}

/// The freshness status text of a market.
pub open spec fn status_text(server: Option<int>, local: Option<u32>) -> Seq<char> {
    match (server, local) {
        (None, _) => "server_unreachable"@,
        (Some(_), None) => "no_data"@,
        (Some(s), Some(l)) => if l >= s {
            "up_to_date"@
        } else {
            "behind"@
        },
    }
}

/// The flattened server date (`server_date.and_then(|d| *d)`), as
/// `(year, month, day)`.
pub open spec fn flat_server_date(server_date: Option<Option<CalendarDay>>) -> Option<(int, int, int)> {
    match server_date {
        Some(Some(d)) => Some((d.year(), d.month(), d.day())),
        _ => None,
    }
}

/// The chronological key of a server date.
pub open spec fn server_key(server: Option<(int, int, int)>) -> Option<int> {
    match server {
        Some(t) => Some(date_key(t.0, t.1, t.2)),
        None => None,
    }
}

pub open spec fn opt_text(s: Option<String>) -> Option<Seq<char>> {
    match s {
        Some(t) => Some(t@),
        None => None,
    }
}

/// Everything `build_market_freshness` states of its result.
#[verifier::opaque]
pub open spec fn market_freshness_spec(
    market: Market,
    server: Option<(int, int, int)>,
    inventory: Seq<(Seq<char>, Market, u32)>,
    r: MarketFreshness,
) -> bool {
    let dates = market_dates(inventory, market);
    let local = max_date(dates);
    &&& r.market@ == spec_dir_name(market)
    &&& opt_text(r.server_latest_date) == match server {
        Some(s) => Some(iso_text(s.0, s.1, s.2)),
        None => None::<Seq<char>>,
    }
    &&& opt_text(r.local_latest_date) == match local {
        Some(l) => Some(iso_of(l)),
        None => None::<Seq<char>>,
    }
    &&& r.days_behind == match (server, local) {
        (Some(s), Some(l)) => Some((day_number(s.0, s.1, s.2) - day_number_of(l)) as i64),
        _ => None::<i64>,
    }
    &&& r.total_stocks == dates.len()
    &&& r.up_to_date_stocks == match server {
        Some(s) => count_at_least(dates, date_key(s.0, s.1, s.2)),
        None => dates.len(),
    }
    &&& r.behind_stocks == match server {
        Some(s) => dates.len() - count_at_least(dates, date_key(s.0, s.1, s.2)),
        None => 0,
    }
    &&& r.missing_stocks == 0
    &&& r.status@ == status_text(server_key(server), local)
}

proof fn lemma_count_at_least_bound(d: Seq<u32>, s: int)
    ensures
        count_at_least(d, s) <= d.len(),
    decreases d.len(),
{
    if d.len() > 0 {
        lemma_count_at_least_bound(d.drop_last(), s);
    }
}

proof fn lemma_max_date_is_member(d: Seq<u32>)
    ensures
        max_date(d) matches Some(m) ==> d.contains(m) && forall|i: int|
            0 <= i < d.len() ==> #[trigger] d[i] <= m,
        max_date(d) is None <==> d.len() == 0,
    decreases d.len(),
{
    if d.len() > 0 {
        let p = d.drop_last();
        lemma_max_date_is_member(p);
        let m = max_date(d).unwrap();
        assert forall|i: int| 0 <= i < d.len() implies #[trigger] d[i] <= m by {
            if i < d.len() - 1 {
                assert(d[i] == p[i]);
            }
        }
        if m == d.last() {
            assert(d[d.len() - 1] == m);
        } else {
            let k = choose|k: int| 0 <= k < p.len() && p[k] == m;
            assert(d[k] == m);
        }
    }
}

proof fn lemma_market_dates_len(s: Seq<(Seq<char>, Market, u32)>, m: Market)
    ensures
        market_dates(s, m).len() <= s.len(),
    decreases s.len(),
{
    if s.len() > 0 {
        lemma_market_dates_len(s.drop_last(), m);
    }
}

/// Freshness of one market: its files are the inventory entries whose key
/// starts with `"{market}/"`; the local latest date is the latest of their
/// dates; with a server date, files on or after it are up to date and the
/// others behind, without one every file counts as up to date; the status is
/// `server_unreachable` without a server date, `no_data` without local files,
/// `up_to_date` when the local latest date is not before the server's and
/// `behind` otherwise.
pub fn build_market_freshness(
    market: Market,
    server_date: Option<&Option<CalendarDay>>,
    inventory: &LocalInventory,
) -> (r: MarketFreshness)
    ensures
        market_freshness_spec(
            market,
            flat_server_date(
                match server_date {
                    Some(d) => Some(*d),
                    None => None,
                },
            ),
            inventory@,
            r,
        ),
{
    let server_latest: Option<CalendarDay> = match server_date {
        Some(d) => *d,
        None => None,
    };
    let ghost server = match server_latest {
        Some(d) => Some((d.year(), d.month(), d.day())),
        None => None::<(int, int, int)>,
    };
    assert(server == flat_server_date(
        match server_date {
            Some(d) => Some(*d),
            None => None,
        },
    ));
    let mut prefix: Vec<char> = chars_of(market.dir_name());
    prefix.push('/');
    let ghost inv = inventory@;
    let entries = &inventory.entries;
    let mut total: usize = 0;
    let mut up: usize = 0;
    let mut local_latest: Option<TradeDate> = None;
    let mut i: usize = 0;
    while i < entries.len()
        invariant
            0 <= i <= entries.len(),
            inv == entries@.map_values(|e: InventoryEntry| entry_view(e)),
            prefix@ == market_prefix(market),
            server == match server_latest {
                Some(d) => Some((d.year(), d.month(), d.day())),
                None => None::<(int, int, int)>,
            },
            total == market_dates(inv.take(i as int), market).len(),
            up == match server {
                Some(s) => count_at_least(
                    market_dates(inv.take(i as int), market),
                    date_key(s.0, s.1, s.2),
                ),
                None => 0,
            },
            match local_latest {
                Some(d) => max_date(market_dates(inv.take(i as int), market)) == Some(d@),
                None => max_date(market_dates(inv.take(i as int), market)) is None,
            },
        decreases entries.len() - i,
    {
        let ghost before = market_dates(inv.take(i as int), market);
        proof {
            assert(inv.take(i + 1).drop_last() =~= inv.take(i as int));
            assert(inv.take(i + 1).last() == entry_view(entries@[i as int]));
            lemma_market_dates_len(inv.take(i as int), market);
            lemma_count_at_least_bound(before, server_key(server).unwrap_or(0));
        }
        let key_chars = chars_of(entries[i].key.as_str());
        if has_prefix_at(&key_chars, 0, &prefix) {
            proof {
                assert(key_chars@.skip(0) =~= key_chars@);
            }
            let d = entries[i].date;
            proof {
                let t = inv.take(i + 1);
                assert(market_dates(t, market) == before.push(d@));
                assert(before.push(d@).drop_last() =~= before);
            }
            total = total + 1;
            match server_latest {
                Some(s) => {
                    if s.on_or_before(&d) {
                        up = up + 1;
                    }
                },
                None => {},
            }
            local_latest = match local_latest {
                Some(m) => if d.le(&m) {
                    Some(m)
                } else {
                    Some(d)
                },
                None => Some(d),
            };
        } else {
            proof {
                assert(key_chars@.skip(0) =~= key_chars@);
                assert(market_dates(inv.take(i + 1), market) == before);
            }
        }
        i = i + 1;
    }
    assert(inv.take(entries.len() as int) =~= inv);
    let ghost dates = market_dates(inv, market);
    proof {
        lemma_count_at_least_bound(dates, server_key(server).unwrap_or(0));
    }
    let (up_to_date_stocks, behind_stocks) = match server_latest {
        Some(_) => (up, total - up),
        None => (total, 0),
    };
    let server_date_str = match server_latest {
        Some(d) => Some(d.format_iso()),
        None => None,
    };
    let local_date_str = match local_latest {
        Some(d) => Some(d.format_iso()),
        None => None,
    };
    let days_behind = match (server_latest, local_latest) {
        (Some(s), Some(l)) => Some(s.days_since(&l)),
        _ => None,
    };
    let status = match (server_latest, local_latest) {
        (None, _) => {
            proof {
                reveal_strlit("server_unreachable");
            }
            owned("server_unreachable")
        },
        (Some(_), None) => {
            proof {
                reveal_strlit("no_data");
            }
            owned("no_data")
        },
        (Some(s), Some(l)) => if s.on_or_before(&l) {
            proof {
                reveal_strlit("up_to_date");
            }
            owned("up_to_date")
        } else {
            proof {
                reveal_strlit("behind");
            }
            owned("behind")
        },
    };
    let r = MarketFreshness {
        market: owned(market.dir_name()),
        server_latest_date: server_date_str,
        local_latest_date: local_date_str,
        days_behind,
        total_stocks: total,
        up_to_date_stocks,
        behind_stocks,
        missing_stocks: 0,
        status,
    };
    proof {
        reveal(market_freshness_spec);
    }
    r
}

/// Every file of a market counts exactly once: as up to date, behind or
/// missing.
pub proof fn law_freshness_counts_partition(
    market: Market,
    server: Option<(int, int, int)>,
    inventory: Seq<(Seq<char>, Market, u32)>,
    r: MarketFreshness,
)
    requires
        market_freshness_spec(market, server, inventory, r),
    ensures
        r.total_stocks == market_dates(inventory, market).len(),
        r.up_to_date_stocks + r.behind_stocks + r.missing_stocks == r.total_stocks,
        r.missing_stocks == 0,
{
    reveal(market_freshness_spec);
    lemma_count_at_least_bound(market_dates(inventory, market), server_key(server).unwrap_or(0));
}

/// The inventory entries of market `m`, in inventory order.
pub open spec fn market_entries(s: Seq<(Seq<char>, Market, u32)>, m: Market) -> Seq<(Seq<char>, Market, u32)>
    decreases s.len(),
{
    if s.len() == 0 {
        Seq::empty()
    } else {
        let rest = market_entries(s.drop_last(), m);
        if has_prefix(s.last().0, market_prefix(m)) {
            rest.push(s.last())
        } else {
            rest
        }
    }
}

/// The entries of `e` dated on or after `x`.
pub open spec fn entries_from(e: Seq<(Seq<char>, Market, u32)>, x: int) -> Seq<(Seq<char>, Market, u32)>
    decreases e.len(),
{
    if e.len() == 0 {
        Seq::empty()
    } else {
        let rest = entries_from(e.drop_last(), x);
        if e.last().2 >= x {
            rest.push(e.last())
        } else {
            rest
        }
    }
}

/// The keys of the entries `e`.
pub open spec fn entry_keys(e: Seq<(Seq<char>, Market, u32)>) -> Set<Seq<char>> {
    e.map_values(|t: (Seq<char>, Market, u32)| t.0).to_set()
}

proof fn lemma_market_entries(s: Seq<(Seq<char>, Market, u32)>, m: Market)
    ensures
        market_dates(s, m) == market_entries(s, m).map_values(|t: (Seq<char>, Market, u32)| t.2),
        forall|j: int| 0 <= j < market_entries(s, m).len() ==> s.contains(
            #[trigger] market_entries(s, m)[j],
        ) && has_prefix(market_entries(s, m)[j].0, market_prefix(m)),
        forall|i: int| 0 <= i < s.len() && has_prefix(s[i].0, market_prefix(m))
            ==> market_entries(s, m).contains(#[trigger] s[i]),
        distinct_keys(s) ==> distinct_keys(market_entries(s, m)),
    decreases s.len(),
{
    if s.len() > 0 {
        let p = s.drop_last();
        lemma_market_entries(p, m);
        let e = market_entries(s, m);
        let ep = market_entries(p, m);
        assert(market_dates(s, m) =~= e.map_values(|t: (Seq<char>, Market, u32)| t.2));
        assert forall|j: int| 0 <= j < e.len() implies s.contains(#[trigger] e[j]) && has_prefix(
            e[j].0,
            market_prefix(m),
        ) by {
            if j < ep.len() {
                assert(e[j] == ep[j]);
                let i = choose|i: int| 0 <= i < p.len() && p[i] == ep[j];
                assert(s[i] == p[i]);
            } else {
                assert(s[s.len() - 1] == e[j]);
            }
        }
        assert forall|i: int| 0 <= i < s.len() && has_prefix(s[i].0, market_prefix(m)) implies e.contains(
            #[trigger] s[i],
        ) by {
            if i < s.len() - 1 {
                assert(p[i] == s[i]);
                let j = choose|j: int| 0 <= j < ep.len() && ep[j] == p[i];
                assert(e[j] == ep[j]);
            } else {
                assert(e[e.len() - 1] == s[i]);
            }
        }
        if distinct_keys(s) {
            assert(distinct_keys(p)) by {
                assert forall|a: int, b: int| 0 <= a < b < p.len() implies p[a].0 != p[b].0 by {
                    assert(p[a] == s[a] && p[b] == s[b]);
                }
            }
            assert forall|a: int, b: int| 0 <= a < b < e.len() implies e[a].0 != e[b].0 by {
                if b < ep.len() {
                    assert(e[a] == ep[a] && e[b] == ep[b]);
                } else {
                    assert(e[a] == ep[a]);
                    let i = choose|i: int| 0 <= i < p.len() && p[i] == ep[a];
                    assert(s[i] == p[i]);
                    assert(s[s.len() - 1] == e[b]);
                }
            }
        }
    }
}

proof fn lemma_entries_from(e: Seq<(Seq<char>, Market, u32)>, x: int)
    ensures
        count_at_least(e.map_values(|t: (Seq<char>, Market, u32)| t.2), x) == entries_from(e, x).len(),
        forall|j: int| 0 <= j < entries_from(e, x).len() ==> e.contains(
            #[trigger] entries_from(e, x)[j],
        ) && entries_from(e, x)[j].2 >= x,
        forall|i: int| 0 <= i < e.len() && e[i].2 >= x ==> entries_from(e, x).contains(#[trigger] e[i]),
        distinct_keys(e) ==> distinct_keys(entries_from(e, x)),
    decreases e.len(),
{
    if e.len() > 0 {
        let p = e.drop_last();
        lemma_entries_from(p, x);
        let f = entries_from(e, x);
        let fp = entries_from(p, x);
        assert(e.map_values(|t: (Seq<char>, Market, u32)| t.2).drop_last() =~= p.map_values(
            |t: (Seq<char>, Market, u32)| t.2,
        ));
        assert forall|j: int| 0 <= j < f.len() implies e.contains(#[trigger] f[j]) && f[j].2 >= x by {
            if j < fp.len() {
                assert(f[j] == fp[j]);
                let i = choose|i: int| 0 <= i < p.len() && p[i] == fp[j];
                assert(e[i] == p[i]);
            } else {
                assert(e[e.len() - 1] == f[j]);
            }
        }
        assert forall|i: int| 0 <= i < e.len() && e[i].2 >= x implies f.contains(#[trigger] e[i]) by {
            if i < e.len() - 1 {
                assert(p[i] == e[i]);
                let j = choose|j: int| 0 <= j < fp.len() && fp[j] == p[i];
                assert(f[j] == fp[j]);
            } else {
                assert(f[f.len() - 1] == e[i]);
            }
        }
        if distinct_keys(e) {
            assert(distinct_keys(p)) by {
                assert forall|a: int, b: int| 0 <= a < b < p.len() implies p[a].0 != p[b].0 by {
                    assert(p[a] == e[a] && p[b] == e[b]);
                }
            }
            assert forall|a: int, b: int| 0 <= a < b < f.len() implies f[a].0 != f[b].0 by {
                if b < fp.len() {
                    assert(f[a] == fp[a] && f[b] == fp[b]);
                } else {
                    assert(f[a] == fp[a]);
                    let i = choose|i: int| 0 <= i < p.len() && p[i] == fp[a];
                    assert(e[i] == p[i]);
                    assert(e[e.len() - 1] == f[b]);
                }
            }
        }
    }
}

proof fn lemma_distinct_key_count(e: Seq<(Seq<char>, Market, u32)>)
    requires
        distinct_keys(e),
    ensures
        entry_keys(e).len() == e.len(),
{
    let k = e.map_values(|t: (Seq<char>, Market, u32)| t.0);
    assert(k.no_duplicates()) by {
        assert forall|i: int, j: int| 0 <= i < k.len() && 0 <= j < k.len() && i != j implies k[i]
            != k[j] by {
            if i < j {
                assert(e[i].0 != e[j].0);
            } else {
                assert(e[j].0 != e[i].0);
            }
        }
    }
    k.unique_seq_to_set();
}

/// The files a market's freshness counts are the distinct keys of the
/// inventory that start with `"{market}/"`: the total is the number of such
/// keys, and with a server date the up-to-date count is the number of such
/// keys whose last date is on or after it (every such key without one).
pub proof fn law_freshness_counts_distinct_keys(
    market: Market,
    server: Option<(int, int, int)>,
    inventory: Seq<(Seq<char>, Market, u32)>,
    r: MarketFreshness,
)
    requires
        distinct_keys(inventory),
        market_freshness_spec(market, server, inventory, r),
    ensures
        forall|k: Seq<char>|
            #[trigger] entry_keys(market_entries(inventory, market)).contains(k) <==> has_prefix(
                k,
                market_prefix(market),
            ) && exists|i: int| 0 <= i < inventory.len() && inventory[i].0 == k,
        r.total_stocks == entry_keys(market_entries(inventory, market)).len(),
        server matches Some(x) ==> r.up_to_date_stocks == entry_keys(
            entries_from(market_entries(inventory, market), date_key(x.0, x.1, x.2)),
        ).len(),
        server is None ==> r.up_to_date_stocks == r.total_stocks,
{
    reveal(market_freshness_spec);
    let e = market_entries(inventory, market);
    lemma_market_entries(inventory, market);
    lemma_distinct_key_count(e);
    let kseq = e.map_values(|t: (Seq<char>, Market, u32)| t.0);
    assert forall|k: Seq<char>|
        #[trigger] entry_keys(e).contains(k) <==> has_prefix(k, market_prefix(market)) && exists|i: int|
            0 <= i < inventory.len() && inventory[i].0 == k by {
        if entry_keys(e).contains(k) {
            let j = choose|j: int| 0 <= j < kseq.len() && kseq[j] == k;
            assert(inventory.contains(e[j]));
            let i = choose|i: int| 0 <= i < inventory.len() && inventory[i] == e[j];
            assert(inventory[i].0 == k);
        }
        if has_prefix(k, market_prefix(market)) && exists|i: int|
            0 <= i < inventory.len() && inventory[i].0 == k {
            let i = choose|i: int| 0 <= i < inventory.len() && inventory[i].0 == k;
            assert(e.contains(inventory[i]));
            let j = choose|j: int| 0 <= j < e.len() && e[j] == inventory[i];
            assert(kseq[j] == k);
        }
    }
    if let Some(x) = server {
        let k = date_key(x.0, x.1, x.2);
        lemma_entries_from(e, k);
        lemma_distinct_key_count(entries_from(e, k));
    }
}

/// Entries of other markets do not affect a market's freshness: two
/// inventories with the same entries of the market give the same result.
pub proof fn law_freshness_ignores_other_markets(
    market: Market,
    server: Option<(int, int, int)>,
    s: Seq<(Seq<char>, Market, u32)>,
    t: Seq<(Seq<char>, Market, u32)>,
    r: MarketFreshness,
)
    requires
        market_entries(s, market) == market_entries(t, market),
        market_freshness_spec(market, server, s, r),
    ensures
        market_freshness_spec(market, server, t, r),
{
    lemma_market_entries(s, market);
    lemma_market_entries(t, market);
    reveal(market_freshness_spec);
}

// ── server dates and the report ───────────────────────────────────────────
/// The latest trading date per market, as far as it is known.  `None` means
/// the market has no entry; `Some(None)` that it has one without a date.
#[derive(Clone, Copy, Debug)]
pub struct MarketDates {
    pub sh: Option<Option<CalendarDay>>,
    pub sz: Option<Option<CalendarDay>>,
    pub bj: Option<Option<CalendarDay>>,
}

impl MarketDates {
    pub open spec fn get(self, m: Market) -> Option<Option<CalendarDay>> {
        match m {
            Market::Sh => self.sh,
            Market::Sz => self.sz,
            Market::Bj => self.bj,
        }
    }

    /// No market has an entry.
    pub fn empty() -> (r: MarketDates)
        ensures
            r.sh is None && r.sz is None && r.bj is None,
    {
        MarketDates { sh: None, sz: None, bj: None }
    }

    pub fn get_exec(&self, m: Market) -> (r: Option<Option<CalendarDay>>)
        ensures
            r == self.get(m),
    {
        match m {
            Market::Sh => self.sh,
            Market::Sz => self.sz,
            Market::Bj => self.bj,
        }
    }
}

pub open spec fn has_some_date(e: Option<Option<CalendarDay>>) -> bool {
    e matches Some(Some(_))
}

/// Some market has a date (`server_dates.values().any(|d| d.is_some())`).
pub open spec fn any_date(d: MarketDates) -> bool {
    has_some_date(d.sh) || has_some_date(d.sz) || has_some_date(d.bj)
}

pub fn any_date_exec(d: &MarketDates) -> (r: bool)
    ensures
        r == any_date(*d),
{
    let a = match d.sh {
        Some(Some(_)) => true,
        _ => false,
    };
    let b = match d.sz {
        Some(Some(_)) => true,
        _ => false,
    };
    let c = match d.bj {
        Some(Some(_)) => true,
        _ => false,
    };
    a || b || c
}

/// The dates the trade calendar gives: all markets share one calendar, so a
/// latest trading day that parses as a date is every market's date; when the
/// calendar has none (or its text does not parse) no market has an entry.
pub fn calendar_market_dates(latest: &Option<String>) -> (r: MarketDates)
    ensures
        match latest {
            Some(t) => match chrono_parse_iso(t@) {
                Some(p) => r.sh matches Some(Some(d)) && d.year() == p.0 && d.month() == p.1
                    && d.day() == p.2 && r.sz == r.sh && r.bj == r.sh,
                None => r.sh is None && r.sz is None && r.bj is None,
            },
            None => r.sh is None && r.sz is None && r.bj is None,
        },
{
    match latest {
        Some(t) => match parse_date(t.as_str()) {
            Some(d) => MarketDates { sh: Some(Some(d)), sz: Some(Some(d)), bj: Some(Some(d)) },
            None => MarketDates::empty(),
        },
        None => MarketDates::empty(),
    }
}

/// Whether the TDX servers must be probed: the calendar gave no date.
pub fn needs_server_probe(calendar: &MarketDates) -> (r: bool)
    ensures
        r == !any_date(*calendar),
{
    !any_date_exec(calendar)
}

/// The calendar's entries, completed by the probed ones for the markets the
/// calendar has no entry for (`entry(market).or_insert(date)`).
pub fn merge_market_dates(calendar: &MarketDates, probed: &MarketDates) -> (r: MarketDates)
    ensures
        forall|m: Market| #[trigger] r.get(m) == if calendar.get(m) is Some {
            calendar.get(m)
        } else {
            probed.get(m)
        },
{
    let pick = |a: Option<Option<CalendarDay>>, b: Option<Option<CalendarDay>>| -> (c: Option<
        Option<CalendarDay>,
    >)
        ensures
            c == if a is Some {
                a
            } else {
                b
            },
        {
            match a {
                Some(_) => a,
                None => b,
            }
        };
    let r = MarketDates {
        sh: pick(calendar.sh, probed.sh),
        sz: pick(calendar.sz, probed.sz),
        bj: pick(calendar.bj, probed.bj),
    };
    assert forall|m: Market| #[trigger] r.get(m) == if calendar.get(m) is Some {
        calendar.get(m)
    } else {
        probed.get(m)
    } by {
        match m {
            Market::Sh => {},
            Market::Sz => {},
            Market::Bj => {},
        }
    }
    r
}

#[derive(Clone, Copy, Debug)]
pub struct FreshnessSummary {
    pub total_stocks: usize,
    pub up_to_date: usize,
    pub behind: usize,
    pub missing: usize,
}

#[derive(Clone, Debug)]
pub struct FreshnessReport {
    pub checked_at: String,
    pub server_reachable: bool,
    pub needs_update: bool,
    pub markets: Vec<MarketFreshness>,
    pub summary: FreshnessSummary,
}

/// The markets of a report, in order.
pub open spec fn report_market(i: int) -> Market {
    if i == 0 {
        Market::Sh
    } else if i == 1 {
        Market::Sz
    } else {
        Market::Bj
    }
}

pub open spec fn needs_update_status(status: Seq<char>) -> bool {
    status == "behind"@ || status == "no_data"@
}

proof fn lemma_prefixes_disjoint(k: Seq<char>, a: Market, b: Market)
    requires
        a != b,
        has_prefix(k, market_prefix(a)),
    ensures
        !has_prefix(k, market_prefix(b)),
{
    assert(k.take(3) == market_prefix(a));
    if has_prefix(k, market_prefix(b)) {
        assert(k.take(3) == market_prefix(b));
        assert(market_prefix(a)[0] == market_prefix(b)[0] && market_prefix(a)[1]
            == market_prefix(b)[1]);
    }
}

proof fn lemma_market_counts_bound(s: Seq<(Seq<char>, Market, u32)>)
    ensures
        market_dates(s, Market::Sh).len() + market_dates(s, Market::Sz).len() + market_dates(
            s,
            Market::Bj,
        ).len() <= s.len(),
    decreases s.len(),
{
    if s.len() > 0 {
        lemma_market_counts_bound(s.drop_last());
        let k = s.last().0;
        if has_prefix(k, market_prefix(Market::Sh)) {
            lemma_prefixes_disjoint(k, Market::Sh, Market::Sz);
            lemma_prefixes_disjoint(k, Market::Sh, Market::Bj);
        } else if has_prefix(k, market_prefix(Market::Sz)) {
            lemma_prefixes_disjoint(k, Market::Sz, Market::Bj);
        }
    }
}

/// The freshness report: one entry per market (Sh, Sz, Bj) built from that
/// market's server date, totals summed over the markets, `needs_update` when
/// some market is behind or has no data, and `server_reachable` when some
/// market has a server date.
pub fn build_freshness_report(
    checked_at: String,
    server_dates: &MarketDates,
    inventory: &LocalInventory,
) -> (r: FreshnessReport)
    ensures
        r.checked_at == checked_at,
        r.server_reachable == any_date(*server_dates),
        r.markets.len() == 3,
        forall|i: int|
            0 <= i < 3 ==> market_freshness_spec(
                report_market(i),
                flat_server_date(server_dates.get(report_market(i))),
                inventory@,
                #[trigger] r.markets[i],
            ),
        r.needs_update == exists|i: int|
            0 <= i < 3 && needs_update_status(#[trigger] r.markets[i].status@),
        r.summary.total_stocks == r.markets[0].total_stocks + r.markets[1].total_stocks
            + r.markets[2].total_stocks,
        r.summary.up_to_date == r.markets[0].up_to_date_stocks + r.markets[1].up_to_date_stocks
            + r.markets[2].up_to_date_stocks,
        r.summary.behind == r.markets[0].behind_stocks + r.markets[1].behind_stocks
            + r.markets[2].behind_stocks,
        r.summary.missing == 0,
{
    let sh_date = server_dates.sh;
    let sz_date = server_dates.sz;
    let bj_date = server_dates.bj;
    let sh = build_market_freshness(Market::Sh, sh_date.as_ref(), inventory);
    let sz = build_market_freshness(Market::Sz, sz_date.as_ref(), inventory);
    let bj = build_market_freshness(Market::Bj, bj_date.as_ref(), inventory);
    let n = inventory.len();
    proof {
        lemma_market_counts_bound(inventory@);
        law_freshness_counts_partition(Market::Sh, flat_server_date(server_dates.sh), inventory@, sh);
        law_freshness_counts_partition(Market::Sz, flat_server_date(server_dates.sz), inventory@, sz);
        law_freshness_counts_partition(Market::Bj, flat_server_date(server_dates.bj), inventory@, bj);
    }
    let needs_update = status_needs_update(&sh.status) || status_needs_update(&sz.status)
        || status_needs_update(&bj.status);
    let total = sh.total_stocks + sz.total_stocks + bj.total_stocks;
    let up = sh.up_to_date_stocks + sz.up_to_date_stocks + bj.up_to_date_stocks;
    let behind = sh.behind_stocks + sz.behind_stocks + bj.behind_stocks;
    let reachable = any_date_exec(server_dates);
    let mut markets: Vec<MarketFreshness> = Vec::new();
    markets.push(sh);
    markets.push(sz);
    markets.push(bj);
    let r = FreshnessReport {
        checked_at,
        server_reachable: reachable,
        needs_update,
        markets,
        summary: FreshnessSummary { total_stocks: total, up_to_date: up, behind, missing: 0 },
    };
    assert forall|i: int|
        0 <= i < 3 implies market_freshness_spec(
        report_market(i),
        flat_server_date(server_dates.get(report_market(i))),
        inventory@,
        #[trigger] r.markets[i],
    ) by {}
    proof {
        if needs_update {
            if needs_update_status(r.markets[0].status@) {
            } else if needs_update_status(r.markets[1].status@) {
            } else {
                assert(needs_update_status(r.markets[2].status@));
            }
        }
    }
    r
}

/// `status` is `"behind"` or `"no_data"`.
pub fn status_needs_update(status: &String) -> (r: bool)
    ensures
        r == needs_update_status(status@),
{
    proof {
        reveal_strlit("behind");
        reveal_strlit("no_data");
    }
    let v = chars_of(status.as_str());
    let behind = chars_of("behind");
    let no_data = chars_of("no_data");
    crate::text::chars_eq(&v, &behind) || crate::text::chars_eq(&v, &no_data)
}

// ── probing TDX servers ───────────────────────────────────────────────────
/// The securities whose latest K-line date stands for their market's latest
/// trading day: `(market, code, is_index)`; the first two are indices.
pub fn benchmark_security(i: usize) -> (r: (Market, &'static str, bool))
    requires
        i < 3,
    ensures
        r.0 == report_market(i as int),
        r.2 == (i < 2),
{
    if i == 0 {
        (Market::Sh, "000001", true)
    } else if i == 1 {
        (Market::Sz, "399001", true)
    } else {
        (Market::Bj, "830799", false)
    }
}

/// The date fields of a K-line bar as the TDX server sends them.
#[derive(Clone, Copy, Debug)]
pub struct KlineDate {
    pub year: u16,
    pub month: u16,
    pub day: u16,
}

#[derive(Clone, Copy, PartialEq, Eq, Structural, Debug)]
pub enum KlineDateError {
    /// The server sent no bars.
    Empty,
    /// No bar carries a plausible calendar date.
    NoValidDate,
}

/// A bar date the freshness check accepts: year 1990..=2100, month 1..=12,
/// day 1..=31, and a real calendar date.
pub open spec fn plausible_kline_date(k: KlineDate) -> bool {
    &&& 1990 <= k.year <= 2100
    &&& 1 <= k.month <= 12
    &&& 1 <= k.day <= 31
    &&& crate::date::is_valid_ymd(k.year as int, k.month as int, k.day as int)
}

pub open spec fn kline_raw(k: KlineDate) -> u32 {
    (k.year * 10000 + k.month * 100 + k.day) as u32
}

/// The packed dates of the plausible bars, in order.
pub open spec fn plausible_kline_dates(s: Seq<KlineDate>) -> Seq<u32>
    decreases s.len(),
{
    if s.len() == 0 {
        Seq::empty()
    } else {
        let rest = plausible_kline_dates(s.drop_last());
        if plausible_kline_date(s.last()) {
            rest.push(kline_raw(s.last()))
        } else {
            rest
        }
    }
}

/// The latest plausible date among the bars of a K-line reply
/// (the date-picking part of a server query).
pub fn latest_kline_date(bars: &Vec<KlineDate>) -> (r: Result<TradeDate, KlineDateError>)
    ensures
        bars.len() == 0 ==> r == Err::<TradeDate, KlineDateError>(KlineDateError::Empty),
        bars.len() > 0 ==> match max_date(plausible_kline_dates(bars@)) {
            Some(m) => r matches Ok(d) && d@ == m,
            None => r == Err::<TradeDate, KlineDateError>(KlineDateError::NoValidDate),
        },
{
    if bars.len() == 0 {
        return Err(KlineDateError::Empty);
    }
    let mut best: Option<TradeDate> = None;
    let mut i: usize = 0;
    while i < bars.len()
        invariant
            0 <= i <= bars.len(),
            match best {
                Some(d) => max_date(plausible_kline_dates(bars@.take(i as int))) == Some(d@),
                None => max_date(plausible_kline_dates(bars@.take(i as int))) is None,
            },
        decreases bars.len() - i,
    {
        let k = bars[i];
        let ghost before = plausible_kline_dates(bars@.take(i as int));
        proof {
            assert(bars@.take(i + 1).drop_last() =~= bars@.take(i as int));
            assert(bars@.take(i + 1).last() == k);
        }
        let plausible = 1990 <= k.year && k.year <= 2100 && 1 <= k.month && k.month <= 12 && 1
            <= k.day && k.day <= 31;
        let cand = if plausible {
            TradeDate::from_ymd(k.year as i32, k.month as u32, k.day as u32)
        } else {
            None
        };
        match cand {
            Some(d) => {
                proof {
                    d.lemma_valid();
                    assert(d@ == kline_raw(k)) by (nonlinear_arith)
                        requires
                            d@ == crate::date::raw_year(d@) * 10000 + crate::date::raw_month(
                                d@,
                            ) * 100 + crate::date::raw_day(d@),
                            crate::date::raw_year(d@) == k.year,
                            crate::date::raw_month(d@) == k.month,
                            crate::date::raw_day(d@) == k.day,
                            k.year <= 2100,
                            k.month <= 12,
                            k.day <= 31,
                    {
                    }
                    assert(plausible_kline_dates(bars@.take(i + 1)) == before.push(d@));
                    assert(before.push(d@).drop_last() =~= before);
                }
                best = match best {
                    Some(b) => if d.le(&b) {
                        Some(b)
                    } else {
                        Some(d)
                    },
                    None => Some(d),
                };
            },
            None => {
                proof {
                    assert(plausible_kline_dates(bars@.take(i + 1)) == before);
                }
            },
        }
        i = i + 1;
    }
    assert(bars@.take(bars.len() as int) =~= bars@);
    match best {
        Some(d) => Ok(d),
        None => Err(KlineDateError::NoValidDate),
    }
}

/// Whom the next query goes to: a server of the candidate list, or the
/// library's built-in default servers.
#[derive(Clone, Copy, PartialEq, Eq, Structural, Debug)]
pub enum ProbeTarget {
    Server(usize),
    Default,
}

/// Where the probe of the current market stands: retrying the server that
/// answered last, scanning the candidate list from an index, or the default
/// servers as last resort.
#[derive(Clone, Copy, PartialEq, Eq, Structural, Debug)]
pub enum ProbePhase {
    Cached,
    Scan(usize),
    Fallback,
}

/// The decisions of the TDX server probe of the freshness check.  For each
/// benchmark (Sh, Sz, Bj): first the server that answered the previous
/// benchmark, then every candidate in order until one answers, then the
/// default servers; a server that answers becomes the cached one.
#[derive(Clone, Copy, Debug)]
pub struct ServerProbe {
    pub n_servers: usize,
    pub market_index: usize,
    pub phase: ProbePhase,
    pub cached: Option<usize>,
    pub dates: MarketDates,
}

/// Where a market's probe starts.
pub open spec fn start_phase(cached: Option<usize>, n: usize) -> ProbePhase {
    if cached is Some {
        ProbePhase::Cached
    } else if n > 0 {
        ProbePhase::Scan(0)
    } else {
        ProbePhase::Fallback
    }
}

pub open spec fn set_date(d: MarketDates, i: int, v: Option<CalendarDay>) -> MarketDates {
    if i == 0 {
        MarketDates { sh: Some(v), ..d }
    } else if i == 1 {
        MarketDates { sz: Some(v), ..d }
    } else {
        MarketDates { bj: Some(v), ..d }
    }
}

impl ServerProbe {
    pub open spec fn wf(self) -> bool {
        &&& self.market_index <= 3
        &&& self.cached matches Some(c) ==> c < self.n_servers
        &&& self.phase matches ProbePhase::Scan(i) ==> i < self.n_servers
        &&& self.phase is Cached ==> self.cached is Some
        &&& forall|k: int|
            0 <= k < 3 ==> (#[trigger] self.dates.get(report_market(k)) is Some <==> k
                < self.market_index)
    }

    pub open spec fn done(self) -> bool {
        self.market_index >= 3
    }

    /// The query the probe wants answered next, if any.
    pub open spec fn spec_next(self) -> Option<(usize, ProbeTarget)> {
        if self.done() {
            None
        } else {
            match self.phase {
                ProbePhase::Cached => Some((self.market_index, ProbeTarget::Server(self.cached.unwrap()))),
                ProbePhase::Scan(i) => Some((self.market_index, ProbeTarget::Server(i))),
                ProbePhase::Fallback => Some((self.market_index, ProbeTarget::Default)),
            }
        }
    }

    /// The state after the current query returned `outcome` (a date, or
    /// `None` when the query failed).
    pub open spec fn spec_record(self, outcome: Option<CalendarDay>) -> ServerProbe {
        let finish = |cached: Option<usize>, v: Option<CalendarDay>|
            ServerProbe {
                market_index: (self.market_index + 1) as usize,
                phase: start_phase(cached, self.n_servers),
                cached,
                dates: set_date(self.dates, self.market_index as int, v),
                ..self
            };
        match (self.phase, outcome) {
            (ProbePhase::Cached, Some(d)) => finish(self.cached, Some(d)),
            (ProbePhase::Cached, None) => ServerProbe {
                cached: None,
                phase: start_phase(None, self.n_servers),
                ..self
            },
            (ProbePhase::Scan(i), Some(d)) => finish(Some(i), Some(d)),
            (ProbePhase::Scan(i), None) => ServerProbe {
                phase: if i + 1 < self.n_servers {
                    ProbePhase::Scan((i + 1) as usize)
                } else {
                    ProbePhase::Fallback
                },
                ..self
            },
            (ProbePhase::Fallback, v) => finish(self.cached, v),
        }
    }

    /// Queries still to come at most.
    pub open spec fn remaining(self) -> int {
        let rank = match self.phase {
            ProbePhase::Cached => self.n_servers + 1,
            ProbePhase::Scan(i) => self.n_servers - i,
            ProbePhase::Fallback => 0,
        };
        (3 - self.market_index) * (self.n_servers + 2) + rank
    }

    /// A probe over `n_servers` candidates, before any query.
    pub fn new(n_servers: usize) -> (r: ServerProbe)
        ensures
            r.wf(),
            r.n_servers == n_servers,
            r.market_index == 0,
            r.cached is None,
            r.phase == start_phase(None, n_servers),
    {
        let r = ServerProbe {
            n_servers,
            market_index: 0,
            phase: if n_servers > 0 {
                ProbePhase::Scan(0)
            } else {
                ProbePhase::Fallback
            },
            cached: None,
            dates: MarketDates::empty(),
        };
        assert forall|k: int| 0 <= k < 3 implies (#[trigger] r.dates.get(report_market(k)) is Some
            <==> k < r.market_index) by {}
        r
    }

    /// The next query: the benchmark (by index) and its target, or `None`
    /// once all three benchmarks are settled.
    pub fn next_query(&self) -> (r: Option<(usize, ProbeTarget)>)
        requires
            self.wf(),
        ensures
            r == self.spec_next(),
            r matches Some((m, ProbeTarget::Server(i))) ==> m < 3 && i < self.n_servers,
            r matches Some((m, ProbeTarget::Default)) ==> m < 3,
    {
        if self.market_index >= 3 {
            return None;
        }
        match self.phase {
            ProbePhase::Cached => match self.cached {
                Some(c) => Some((self.market_index, ProbeTarget::Server(c))),
                None => Some((self.market_index, ProbeTarget::Default)),
            },
            ProbePhase::Scan(i) => Some((self.market_index, ProbeTarget::Server(i))),
            ProbePhase::Fallback => Some((self.market_index, ProbeTarget::Default)),
        }
    }

    /// Takes the answer to the query `next_query` gave.
    pub fn record(&mut self, outcome: Option<CalendarDay>)
        requires
            old(self).wf(),
            !old(self).done(),
        ensures
            *final(self) == old(self).spec_record(outcome),
            final(self).wf(),
            final(self).remaining() < old(self).remaining(),
            0 <= final(self).remaining(),
    {
        let n = self.n_servers;
        let mi = self.market_index;
        let ghost old_self = *self;
        match (self.phase, outcome) {
            (ProbePhase::Cached, None) => {
                self.cached = None;
                self.phase = if n > 0 {
                    ProbePhase::Scan(0)
                } else {
                    ProbePhase::Fallback
                };
            },
            (ProbePhase::Scan(i), None) => {
                self.phase = if i + 1 < n {
                    ProbePhase::Scan(i + 1)
                } else {
                    ProbePhase::Fallback
                };
            },
            (phase, v) => {
                let cached = match phase {
                    ProbePhase::Scan(i) => Some(i),
                    _ => self.cached,
                };
                if mi == 0 {
                    self.dates.sh = Some(v);
                } else if mi == 1 {
                    self.dates.sz = Some(v);
                } else {
                    self.dates.bj = Some(v);
                }
                self.market_index = mi + 1;
                self.cached = cached;
                self.phase = match cached {
                    Some(_) => ProbePhase::Cached,
                    None => if n > 0 {
                        ProbePhase::Scan(0)
                    } else {
                        ProbePhase::Fallback
                    },
                };
            },
        }
        proof {
            assert(*self == old_self.spec_record(outcome));
            assert forall|k: int| 0 <= k < 3 implies (#[trigger] self.dates.get(report_market(k))
                is Some <==> k < self.market_index) by {
                assert(old_self.dates.get(report_market(k)) is Some <==> k < old_self.market_index);
            }
            assert(self.remaining() < old_self.remaining()) by (nonlinear_arith)
                requires
                    self.remaining() == (3 - self.market_index) * (n + 2) + match self.phase {
                        ProbePhase::Cached => n + 1,
                        ProbePhase::Scan(i) => n - i,
                        ProbePhase::Fallback => 0,
                    },
                    old_self.remaining() == (3 - old_self.market_index) * (n + 2) + match old_self.phase {
                        ProbePhase::Cached => n + 1,
                        ProbePhase::Scan(i) => n - i,
                        ProbePhase::Fallback => 0,
                    },
                    self.market_index == old_self.market_index ==> (match self.phase {
                        ProbePhase::Cached => n + 1,
                        ProbePhase::Scan(i) => n - i,
                        ProbePhase::Fallback => 0,
                    }) < (match old_self.phase {
                        ProbePhase::Cached => n + 1,
                        ProbePhase::Scan(i) => n - i,
                        ProbePhase::Fallback => 0,
                    }),
                    self.market_index == old_self.market_index || self.market_index
                        == old_self.market_index + 1,
                    match self.phase {
                        ProbePhase::Scan(i) => i < n,
                        _ => true,
                    },
                    match old_self.phase {
                        ProbePhase::Scan(i) => i < n,
                        _ => true,
                    },
            {
            }
        }
    }
}

} // verus!
