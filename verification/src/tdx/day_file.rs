//! The TDX `.day` file format: a sequence of 32-byte little-endian records
//!
//! ```text
//! 0..4   date   u32  yyyymmdd
//! 4..8   open   i32  price / coefficient
//! 8..12  high   i32
//! 12..16 low    i32
//! 16..20 close  i32
//! 20..24 amount f32  (kept here as its bit pattern)
//! 24..28 volume u32
//! 28..32 reserved (written as zero, ignored when read)
//! ```
//!
//! Prices are kept as the stored integers; scaling them by the file's
//! coefficient is left to the caller.
use vstd::prelude::*;
use crate::date::{TradeDate, is_valid_raw};
use vstd::multiset::Multiset;

verus! {

/// One bar of a `.day` file, with the fields as stored.
#[derive(Clone, Copy, PartialEq, Eq, Structural, Debug)]
pub struct DayRecord {
    pub date: TradeDate,
    pub open: i32,
    pub high: i32,
    pub low: i32,
    pub close: i32,
    /// Bit pattern of the `f32` turnover amount.
    pub amount_bits: u32,
    pub volume: u32,
}

/// The plain fields of a record, the date as its packed `yyyymmdd` value.
#[derive(Clone, Copy, PartialEq, Eq, Structural, Debug)]
pub struct DayFields {
    pub date: u32,
    pub open: i32,
    pub high: i32,
    pub low: i32,
    pub close: i32,
    pub amount_bits: u32,
    pub volume: u32,
}

impl View for DayRecord {
    type V = DayFields;

    open spec fn view(&self) -> DayFields {
        DayFields {
            date: self.date@,
            open: self.open,
            high: self.high,
            low: self.low,
            close: self.close,
            amount_bits: self.amount_bits,
            volume: self.volume,
        }
    }
}

pub open spec fn records_view(v: Seq<DayRecord>) -> Seq<DayFields> {
    v.map_values(|r: DayRecord| r@)
}

/// Why a `.day` file could not be read.
#[derive(Clone, Copy, PartialEq, Eq, Structural, Debug)]
pub enum DayFileError {
    /// The file length is not a multiple of 32 bytes.
    InvalidSize,
    /// A record's date field (the value given) is not a calendar date.
    InvalidDate(u32),
}

// ── little-endian integers ─────────────────────────────────────────────────
pub open spec fn le_bytes(x: u32) -> Seq<u8> {
    seq![
        (x & 0xff) as u8,
        ((x >> 8u32) & 0xff) as u8,
        ((x >> 16u32) & 0xff) as u8,
        ((x >> 24u32) & 0xff) as u8,
    ]
}

pub open spec fn le_value(b0: u8, b1: u8, b2: u8, b3: u8) -> u32 {
    (b0 as u32) | ((b1 as u32) << 8u32) | ((b2 as u32) << 16u32) | ((b3 as u32) << 24u32)
}

/// The `u32` stored little-endian at `b[off..off + 4]`.
pub open spec fn le_u32_at(b: Seq<u8>, off: int) -> u32 {
    le_value(b[off], b[off + 1], b[off + 2], b[off + 3])
}

pub proof fn lemma_le_roundtrip(x: u32)
    ensures
        le_value(le_bytes(x)[0], le_bytes(x)[1], le_bytes(x)[2], le_bytes(x)[3]) == x,
{
    let b0 = (x & 0xff) as u8;
    let b1 = ((x >> 8u32) & 0xff) as u8;
    let b2 = ((x >> 16u32) & 0xff) as u8;
    let b3 = ((x >> 24u32) & 0xff) as u8;
    assert((b0 as u32) | ((b1 as u32) << 8u32) | ((b2 as u32) << 16u32) | ((b3 as u32) << 24u32)
        == x) by (bit_vector)
        requires
            b0 == (x & 0xff) as u8,
            b1 == ((x >> 8u32) & 0xff) as u8,
            b2 == ((x >> 16u32) & 0xff) as u8,
            b3 == ((x >> 24u32) & 0xff) as u8,
    ;
}

pub proof fn lemma_i32_u32_roundtrip(x: i32)
    ensures
        ((x as u32) as i32) == x,
{
    assert(((x as u32) as i32) == x) by (bit_vector);
}

fn push_le(out: &mut Vec<u8>, x: u32)
    ensures
        final(out)@ == old(out)@ + le_bytes(x),
{
    out.push((x & 0xff) as u8);
    out.push(((x >> 8u32) & 0xff) as u8);
    out.push(((x >> 16u32) & 0xff) as u8);
    out.push(((x >> 24u32) & 0xff) as u8);
    assert(final(out)@ =~= old(out)@ + le_bytes(x));
}

fn read_le(b: &Vec<u8>, off: usize) -> (r: u32)
    requires
        off + 4 <= b.len(),
    ensures
        r == le_u32_at(b@, off as int),
{
    (b[off] as u32) | ((b[off + 1] as u32) << 8u32) | ((b[off + 2] as u32) << 16u32) | ((b[off
        + 3] as u32) << 24u32)
}

// ── records ────────────────────────────────────────────────────────────────
/// The 32 bytes that store `r`.
pub open spec fn record_bytes(r: DayFields) -> Seq<u8> {
    le_bytes(r.date) + le_bytes(r.open as u32) + le_bytes(r.high as u32) + le_bytes(r.low as u32)
        + le_bytes(r.close as u32) + le_bytes(r.amount_bits) + le_bytes(r.volume) + seq![
        0u8,
        0u8,
        0u8,
        0u8,
    ]
}

/// The fields stored in the 32 bytes at `b[32 * i..32 * i + 32]`.
pub open spec fn record_at(b: Seq<u8>, i: int) -> DayFields {
    let o = 32 * i;
    DayFields {
        date: le_u32_at(b, o),
        open: le_u32_at(b, o + 4) as i32,
        high: le_u32_at(b, o + 8) as i32,
        low: le_u32_at(b, o + 12) as i32,
        close: le_u32_at(b, o + 16) as i32,
        amount_bits: le_u32_at(b, o + 20),
        volume: le_u32_at(b, o + 24),
    }
}

/// The records of a file whose length is a multiple of 32, in file order.
pub open spec fn file_records(b: Seq<u8>) -> Seq<DayFields> {
    Seq::new((b.len() / 32) as nat, |i: int| record_at(b, i))
}

/// Index of the first record whose date is not a calendar date, or -1.
pub open spec fn first_invalid_date(s: Seq<DayFields>) -> int
    decreases s.len(),
{
    if s.len() == 0 {
        -1
    } else if !is_valid_raw(s[0].date) {
        0
    } else {
        let r = first_invalid_date(s.drop_first());
        if r < 0 {
            -1
        } else {
            r + 1
        }
    }
}

/// The bytes of a file holding `rs` in order.
pub open spec fn encode_records(rs: Seq<DayFields>) -> Seq<u8>
    decreases rs.len(),
{
    if rs.len() == 0 {
        Seq::empty()
    } else {
        encode_records(rs.drop_last()) + record_bytes(rs.last())
    }
}

// ── stable sort by date ────────────────────────────────────────────────────
/// `x` inserted into `s` after every record whose date is not later than its
/// own.
pub open spec fn insert_by_date(s: Seq<DayFields>, x: DayFields) -> Seq<DayFields>
    decreases s.len(),
{
    if s.len() == 0 {
        seq![x]
    } else if s.last().date <= x.date {
        s.push(x)
    } else {
        insert_by_date(s.drop_last(), x).push(s.last())
    }
}

/// The stable sort of `s` by date (what `sort_by_key(|b| b.date)` gives).
pub open spec fn sort_by_date(s: Seq<DayFields>) -> Seq<DayFields>
    decreases s.len(),
{
    if s.len() == 0 {
        Seq::empty()
    } else {
        insert_by_date(sort_by_date(s.drop_last()), s.last())
    }
}

pub open spec fn sorted_by_date(s: Seq<DayFields>) -> bool {
    forall|i: int, j: int| 0 <= i <= j < s.len() ==> s[i].date <= s[j].date
}

pub open spec fn distinct_dates(s: Seq<DayFields>) -> bool {
    forall|i: int, j: int| 0 <= i < j < s.len() ==> s[i].date != s[j].date
}

pub open spec fn has_date(s: Seq<DayFields>, d: u32) -> bool {
    exists|i: int| 0 <= i < s.len() && s[i].date == d
}

/// What reading a `.day` file with content `b` gives: an error for a length
/// that is not a multiple of 32 or for the first record with an impossible
/// date, otherwise its records sorted by date.
pub open spec fn decode_day_file_spec(b: Seq<u8>) -> Result<Seq<DayFields>, DayFileError> {
    if b.len() % 32 != 0 {
        Err(DayFileError::InvalidSize)
    } else {
        let recs = file_records(b);
        let k = first_invalid_date(recs);
        if k >= 0 {
            Err(DayFileError::InvalidDate(recs[k].date))
        } else {
            Ok(sort_by_date(recs))
        }
    }
}

/// `acc` extended with the records of `new` whose date it does not yet hold,
/// taken in order (each added record counts for the later ones).
pub open spec fn add_missing_dates(acc: Seq<DayFields>, new: Seq<DayFields>) -> Seq<DayFields>
    decreases new.len(),
{
    if new.len() == 0 {
        acc
    } else {
        let prev = add_missing_dates(acc, new.drop_last());
        if has_date(prev, new.last().date) {
            prev
        } else {
            prev.push(new.last())
        }
    }
}

/// What appending `new` to a file holding `existing` writes back.
pub open spec fn merge_day_records_spec(existing: Seq<DayFields>, new: Seq<DayFields>) -> Seq<
    DayFields,
> {
    sort_by_date(add_missing_dates(existing, new))
}

// ── lemmas on the sort ─────────────────────────────────────────────────────
proof fn lemma_push_contains(r: Seq<DayFields>, a: DayFields, y: DayFields)
    ensures
        r.push(a).contains(y) <==> (r.contains(y) || y == a),
{
    if r.push(a).contains(y) {
        let k = choose|k: int| 0 <= k < r.push(a).len() && r.push(a)[k] == y;
        if k < r.len() {
            assert(r[k] == y);
        }
    }
    if r.contains(y) {
        let k = choose|k: int| 0 <= k < r.len() && r[k] == y;
        assert(r.push(a)[k] == y);
    }
    if y == a {
        assert(r.push(a)[r.len() as int] == a);
    }
}

proof fn lemma_insert_len_contains(s: Seq<DayFields>, x: DayFields)
    ensures
        insert_by_date(s, x).len() == s.len() + 1,
        forall|y: DayFields| #[trigger] insert_by_date(s, x).contains(y) <==> (s.contains(y) || y
            == x),
        insert_by_date(s, x).to_multiset() =~= s.to_multiset().insert(x),
    decreases s.len(),
{
    broadcast use vstd::seq_lib::group_to_multiset_ensures;

    if s.len() == 0 {
        assert(seq![x] =~= s.push(x));
        assert forall|y: DayFields| #[trigger] insert_by_date(s, x).contains(y) <==> (s.contains(y)
            || y == x) by {
            lemma_push_contains(s, x, y);
        }
    } else if s.last().date <= x.date {
        assert forall|y: DayFields| #[trigger] insert_by_date(s, x).contains(y) <==> (s.contains(y)
            || y == x) by {
            lemma_push_contains(s, x, y);
        }
    } else {
        let d = s.drop_last();
        lemma_insert_len_contains(d, x);
        assert(s =~= d.push(s.last()));
        assert(insert_by_date(s, x) == insert_by_date(d, x).push(s.last()));
        assert forall|y: DayFields| #[trigger] insert_by_date(s, x).contains(y) <==> (s.contains(y)
            || y == x) by {
            lemma_push_contains(d, s.last(), y);
            lemma_push_contains(insert_by_date(d, x), s.last(), y);
            assert(insert_by_date(d, x).contains(y) <==> (d.contains(y) || y == x));
        }
    }
}

/// `insert_by_date` into a sorted sequence is the insertion at the first
/// position holding a later date.
proof fn lemma_insert_position(s: Seq<DayFields>, x: DayFields, p: int)
    requires
        sorted_by_date(s),
        0 <= p <= s.len(),
        forall|k: int| 0 <= k < p ==> s[k].date <= x.date,
        forall|k: int| p <= k < s.len() ==> s[k].date > x.date,
    ensures
        insert_by_date(s, x) == s.insert(p, x),
    decreases s.len(),
{
    if s.len() == 0 {
        assert(s.insert(p, x) =~= seq![x]);
    } else if s.last().date <= x.date {
        assert(p == s.len());
        assert(s.insert(p, x) =~= s.push(x));
    } else {
        let d = s.drop_last();
        lemma_insert_position(d, x, p);
        assert(s.insert(p, x) =~= d.insert(p, x).push(s.last()));
    }
}

proof fn lemma_insert_sorted(s: Seq<DayFields>, x: DayFields)
    requires
        sorted_by_date(s),
    ensures
        sorted_by_date(insert_by_date(s, x)),
{
    let p = choose_position(s, x);
    lemma_insert_position(s, x, p);
    let r = s.insert(p, x);
    assert forall|i: int, j: int| 0 <= i <= j < r.len() implies r[i].date <= r[j].date by {
        if i < p && j < p {
        } else if i < p && j == p {
        } else if i < p {
            assert(r[j] == s[j - 1]);
        } else if i == p && j == p {
        } else if i == p {
            assert(r[j] == s[j - 1]);
        } else {
            assert(r[i] == s[i - 1] && r[j] == s[j - 1]);
        }
    }
}

/// The number of records of the sorted `s` with a date not later than `x`'s.
proof fn choose_position(s: Seq<DayFields>, x: DayFields) -> (p: int)
    requires
        sorted_by_date(s),
    ensures
        0 <= p <= s.len(),
        forall|k: int| 0 <= k < p ==> s[k].date <= x.date,
        forall|k: int| p <= k < s.len() ==> s[k].date > x.date,
    decreases s.len(),
{
    if s.len() == 0 {
        0
    } else if s.last().date <= x.date {
        s.len() as int
    } else {
        let d = s.drop_last();
        assert(sorted_by_date(d)) by {
            assert forall|i: int, j: int| 0 <= i <= j < d.len() implies d[i].date <= d[j].date by {
                assert(d[i] == s[i] && d[j] == s[j]);
            }
        }
        let p = choose_position(d, x);
        assert forall|k: int| 0 <= k < p implies s[k].date <= x.date by {
            assert(s[k] == d[k]);
        }
        assert forall|k: int| p <= k < s.len() implies s[k].date > x.date by {
            if k < s.len() - 1 {
                assert(s[k] == d[k]);
            }
        }
        p
    }
}

/// The date sort gives a sorted permutation of its input.
pub proof fn lemma_sort_by_date(s: Seq<DayFields>)
    ensures
        sorted_by_date(sort_by_date(s)),
        sort_by_date(s).len() == s.len(),
        sort_by_date(s).to_multiset() =~= s.to_multiset(),
        forall|y: DayFields| #[trigger] sort_by_date(s).contains(y) <==> s.contains(y),
    decreases s.len(),
{
    broadcast use vstd::seq_lib::group_to_multiset_ensures;

    if s.len() > 0 {
        let d = s.drop_last();
        lemma_sort_by_date(d);
        lemma_insert_sorted(sort_by_date(d), s.last());
        lemma_insert_len_contains(sort_by_date(d), s.last());
        assert(s =~= d.push(s.last()));
        assert forall|y: DayFields| #[trigger] sort_by_date(s).contains(y) <==> s.contains(y) by {
            if s.contains(y) && y != s.last() {
                let k = choose|k: int| 0 <= k < s.len() && s[k] == y;
                assert(d[k] == y);
            }
            if d.contains(y) {
                let k = choose|k: int| 0 <= k < d.len() && d[k] == y;
                assert(s[k] == y);
            }
        }
    } else {
        assert(s.to_multiset() =~= Multiset::empty());
    }
}

/// Inserting a record with a new date keeps the dates distinct.
proof fn lemma_insert_distinct(s: Seq<DayFields>, x: DayFields)
    requires
        distinct_dates(s),
        !has_date(s, x.date),
    ensures
        distinct_dates(insert_by_date(s, x)),
        forall|d: u32| #[trigger] has_date(insert_by_date(s, x), d) <==> (has_date(s, d) || d
            == x.date),
    decreases s.len(),
{
    if s.len() == 0 {
        assert forall|d: u32| #[trigger] has_date(insert_by_date(s, x), d) <==> (has_date(s, d)
            || d == x.date) by {
            if d == x.date {
                assert(insert_by_date(s, x)[0] == x);
            }
        }
    } else if s.last().date <= x.date {
        let r = s.push(x);
        assert forall|i: int, j: int| 0 <= i < j < r.len() implies r[i].date != r[j].date by {
            if j == s.len() {
                assert(r[i] == s[i]);
            }
        }
        assert forall|d: u32| #[trigger] has_date(r, d) <==> (has_date(s, d) || d == x.date) by {
            if has_date(r, d) {
                let k = choose|k: int| 0 <= k < r.len() && r[k].date == d;
                if k < s.len() {
                    assert(s[k] == r[k]);
                }
            }
            if has_date(s, d) {
                let k = choose|k: int| 0 <= k < s.len() && s[k].date == d;
                assert(r[k] == s[k]);
            }
            if d == x.date {
                assert(r[s.len() as int] == x);
            }
        }
    } else {
        let dl = s.drop_last();
        let l = s.last();
        assert(distinct_dates(dl)) by {
            assert forall|i: int, j: int| 0 <= i < j < dl.len() implies dl[i].date
                != dl[j].date by {
                assert(dl[i] == s[i] && dl[j] == s[j]);
            }
        }
        assert(!has_date(dl, x.date)) by {
            if has_date(dl, x.date) {
                let k = choose|k: int| 0 <= k < dl.len() && dl[k].date == x.date;
                assert(s[k] == dl[k]);
            }
        }
        lemma_insert_distinct(dl, x);
        let m = insert_by_date(dl, x);
        let r = m.push(l);
        assert(!has_date(dl, l.date)) by {
            if has_date(dl, l.date) {
                let k = choose|k: int| 0 <= k < dl.len() && dl[k].date == l.date;
                assert(s[k] == dl[k]);
            }
        }
        assert(l.date != x.date) by {
            assert(s[s.len() - 1] == l);
        }
        assert(!has_date(m, l.date));
        assert forall|i: int, j: int| 0 <= i < j < r.len() implies r[i].date != r[j].date by {
            if j == m.len() {
                assert(r[i] == m[i]);
                if m[i].date == l.date {
                    assert(has_date(m, l.date));
                }
            } else {
                assert(r[i] == m[i] && r[j] == m[j]);
            }
        }
        assert forall|d: u32| #[trigger] has_date(r, d) <==> (has_date(s, d) || d == x.date) by {
            if has_date(r, d) {
                let k = choose|k: int| 0 <= k < r.len() && r[k].date == d;
                if k < m.len() {
                    assert(r[k] == m[k]);
                    assert(has_date(m, d));
                    if has_date(dl, d) {
                        let q = choose|q: int| 0 <= q < dl.len() && dl[q].date == d;
                        assert(s[q] == dl[q]);
                    }
                } else {
                    assert(s[s.len() - 1].date == d);
                }
            }
            if has_date(s, d) {
                let k = choose|k: int| 0 <= k < s.len() && s[k].date == d;
                if k < dl.len() {
                    assert(dl[k] == s[k]);
                    assert(has_date(dl, d));
                    assert(has_date(m, d));
                    let q = choose|q: int| 0 <= q < m.len() && m[q].date == d;
                    assert(r[q] == m[q]);
                } else {
                    assert(r[m.len() as int] == l);
                }
            }
            if d == x.date {
                assert(has_date(m, d));
                let q = choose|q: int| 0 <= q < m.len() && m[q].date == d;
                assert(r[q] == m[q]);
            }
        }
    }
}

/// Sorting keeps dates distinct, and the set of dates.
pub proof fn lemma_sort_distinct(s: Seq<DayFields>)
    requires
        distinct_dates(s),
    ensures
        distinct_dates(sort_by_date(s)),
        forall|d: u32| #[trigger] has_date(sort_by_date(s), d) <==> has_date(s, d),
    decreases s.len(),
{
    if s.len() > 0 {
        let dl = s.drop_last();
        let l = s.last();
        assert(distinct_dates(dl)) by {
            assert forall|i: int, j: int| 0 <= i < j < dl.len() implies dl[i].date
                != dl[j].date by {
                assert(dl[i] == s[i] && dl[j] == s[j]);
            }
        }
        lemma_sort_distinct(dl);
        assert(!has_date(sort_by_date(dl), l.date)) by {
            if has_date(dl, l.date) {
                let k = choose|k: int| 0 <= k < dl.len() && dl[k].date == l.date;
                assert(s[k] == dl[k]);
                assert(s[s.len() - 1] == l);
            }
        }
        lemma_insert_distinct(sort_by_date(dl), l);
        assert forall|d: u32| #[trigger] has_date(sort_by_date(s), d) <==> has_date(s, d) by {
            if has_date(dl, d) {
                let k = choose|k: int| 0 <= k < dl.len() && dl[k].date == d;
                assert(s[k] == dl[k]);
            }
            if has_date(s, d) {
                let k = choose|k: int| 0 <= k < s.len() && s[k].date == d;
                if k < dl.len() {
                    assert(dl[k] == s[k]);
                }
            }
        }
    }
}

// ── executable sort, decode, encode, merge ─────────────────────────────────
/// Sorts `v` by date, keeping records with equal dates in their order.
pub fn sort_records_by_date(v: &Vec<DayRecord>) -> (r: Vec<DayRecord>)
    ensures
        records_view(r@) == sort_by_date(records_view(v@)),
{
    let ghost vv = records_view(v@);
    let mut r: Vec<DayRecord> = Vec::new();
    let mut i: usize = 0;
    while i < v.len()
        invariant
            0 <= i <= v.len(),
            vv == records_view(v@),
            records_view(r@) == sort_by_date(vv.take(i as int)),
        decreases v.len() - i,
    {
        let x = v[i];
        let ghost rv = records_view(r@);
        proof {
            lemma_sort_by_date(vv.take(i as int));
        }
        let mut p: usize = r.len();
        while p > 0 && x.date.lt(&r[p - 1].date)
            invariant
                0 <= p <= r.len(),
                rv == records_view(r@),
                sorted_by_date(rv),
                forall|k: int| p <= k < r.len() ==> rv[k].date > x@.date,
            decreases p,
        {
            p = p - 1;
        }
        proof {
            assert forall|k: int| 0 <= k < p implies rv[k].date <= x@.date by {
                assert(rv[k].date <= rv[p - 1].date);
            }
            lemma_insert_position(rv, x@, p as int);
        }
        r.insert(p, x);
        proof {
            assert(vv.take(i + 1).drop_last() =~= vv.take(i as int));
            assert(vv.take(i + 1).last() == x@);
            assert(records_view(r@) =~= rv.insert(p as int, x@));
        }
        i = i + 1;
    }
    assert(vv.take(v.len() as int) =~= vv);
    r
}

/// The fields of the record at `b[32 * i..]`, read as stored.
fn read_record_fields(b: &Vec<u8>, i: usize) -> (r: DayFields)
    requires
        32 * i + 32 <= b.len(),
    ensures
        r == record_at(b@, i as int),
{
    let o = 32 * i;
    DayFields {
        date: read_le(b, o),
        open: read_le(b, o + 4) as i32,
        high: read_le(b, o + 8) as i32,
        low: read_le(b, o + 12) as i32,
        close: read_le(b, o + 16) as i32,
        amount_bits: read_le(b, o + 20),
        volume: read_le(b, o + 24),
    }
}

proof fn lemma_first_invalid_prefix(s: Seq<DayFields>, i: int)
    requires
        0 <= i < s.len(),
        first_invalid_date(s.take(i)) < 0,
    ensures
        first_invalid_date(s.take(i + 1)) == (if is_valid_raw(s[i].date) {
            -1
        } else {
            i
        }),
    decreases i,
{
    let t = s.take(i + 1);
    assert(t[0] == s[0]);
    if i == 0 {
        assert(t.drop_first() =~= Seq::<DayFields>::empty());
        assert(first_invalid_date(t.drop_first()) == -1);
    } else {
        let u = s.take(i);
        assert(u[0] == s[0]);
        assert(is_valid_raw(s[0].date));
        assert(u.drop_first() =~= s.drop_first().take(i - 1));
        assert(t.drop_first() =~= s.drop_first().take(i));
        assert(s.drop_first()[i - 1] == s[i]);
        lemma_first_invalid_prefix(s.drop_first(), i - 1);
        assert(is_valid_raw(t[0].date));
        assert(first_invalid_date(t) == (if first_invalid_date(t.drop_first()) < 0 {
            -1
        } else {
            first_invalid_date(t.drop_first()) + 1
        }));
    }
}

/// Reads the records of a `.day` file with content `b` (`read_file` after the
/// file read): fails on a length that is not a multiple of 32 or on the first
/// record whose date is not a calendar date, and otherwise returns the records
/// sorted by date (records of equal date keep their file order).
pub fn decode_day_file(b: &Vec<u8>) -> (r: Result<Vec<DayRecord>, DayFileError>)
    ensures
        match decode_day_file_spec(b@) {
            Ok(s) => r matches Ok(v) && records_view(v@) == s,
            Err(e) => r == Err::<Vec<DayRecord>, DayFileError>(e),
        },
{
    if b.len() % 32 != 0 {
        return Err(DayFileError::InvalidSize);
    }
    let n = b.len() / 32;
    let ghost recs = file_records(b@);
    let mut v: Vec<DayRecord> = Vec::new();
    let mut i: usize = 0;
    while i < n
        invariant
            n == b.len() / 32,
            b.len() % 32 == 0,
            0 <= i <= n,
            recs == file_records(b@),
            records_view(v@) == recs.take(i as int),
            first_invalid_date(recs.take(i as int)) < 0,
        decreases n - i,
    {
        let f = read_record_fields(b, i);
        proof {
            lemma_first_invalid_prefix(recs, i as int);
        }
        match TradeDate::from_raw(f.date) {
            Some(date) => {
                v.push(
                    DayRecord {
                        date,
                        open: f.open,
                        high: f.high,
                        low: f.low,
                        close: f.close,
                        amount_bits: f.amount_bits,
                        volume: f.volume,
                    },
                );
                proof {
                    assert(records_view(v@) =~= recs.take(i + 1));
                }
            },
            None => {
                proof {
                    assert(recs.take(i + 1)[i as int] == recs[i as int]);
                    assert(first_invalid_date(recs) == i) by {
                        lemma_first_invalid_extends(recs, i as int + 1);
                    }
                }
                return Err(DayFileError::InvalidDate(f.date));
            },
        }
        i = i + 1;
    }
    assert(recs.take(n as int) =~= recs);
    Ok(sort_records_by_date(&v))
}

/// Once a prefix holds an impossible date, the whole sequence reports it.
proof fn lemma_first_invalid_extends(s: Seq<DayFields>, i: int)
    requires
        0 <= i <= s.len(),
        first_invalid_date(s.take(i)) >= 0,
    ensures
        first_invalid_date(s) == first_invalid_date(s.take(i)),
    decreases i,
{
    let t = s.take(i);
    assert(t.len() > 0);
    assert(t[0] == s[0]);
    if is_valid_raw(s[0].date) {
        assert(t.drop_first() =~= s.drop_first().take(i - 1));
        lemma_first_invalid_extends(s.drop_first(), i - 1);
    }
}

/// The content of a `.day` file holding `records` in order
/// (`write_file` before the file write).
pub fn encode_day_records(records: &Vec<DayRecord>) -> (r: Vec<u8>)
    ensures
        r@ == encode_records(records_view(records@)),
{
    let ghost rv = records_view(records@);
    let mut out: Vec<u8> = Vec::new();
    let mut i: usize = 0;
    while i < records.len()
        invariant
            0 <= i <= records.len(),
            rv == records_view(records@),
            out@ == encode_records(rv.take(i as int)),
        decreases records.len() - i,
    {
        let rec = records[i];
        push_le(&mut out, rec.date.raw());
        push_le(&mut out, rec.open as u32);
        push_le(&mut out, rec.high as u32);
        push_le(&mut out, rec.low as u32);
        push_le(&mut out, rec.close as u32);
        push_le(&mut out, rec.amount_bits);
        push_le(&mut out, rec.volume);
        out.push(0u8);
        out.push(0u8);
        out.push(0u8);
        out.push(0u8);
        proof {
            assert(rv.take(i + 1).drop_last() =~= rv.take(i as int));
            assert(rv.take(i + 1).last() == rec@);
            assert(out@ =~= encode_records(rv.take(i as int)) + record_bytes(rec@));
        }
        i = i + 1;
    }
    assert(rv.take(records.len() as int) =~= rv);
    out
}

/// The records written back when `new` is appended to a file holding
/// `existing` (`append_file` between its read and its write): the records of
/// `new` whose date is not yet present are added in order, and the result is
/// sorted by date.
pub fn merge_day_records(existing: &Vec<DayRecord>, new: &Vec<DayRecord>) -> (r: Vec<DayRecord>)
    ensures
        records_view(r@) == merge_day_records_spec(records_view(existing@), records_view(new@)),
{
    let ghost ev = records_view(existing@);
    let ghost nv = records_view(new@);
    let mut acc: Vec<DayRecord> = existing.clone();
    assert(records_view(acc@) =~= ev);
    let mut i: usize = 0;
    while i < new.len()
        invariant
            0 <= i <= new.len(),
            nv == records_view(new@),
            records_view(acc@) == add_missing_dates(ev, nv.take(i as int)),
        decreases new.len() - i,
    {
        let x = new[i];
        let ghost av = records_view(acc@);
        let mut found = false;
        let mut k: usize = 0;
        while k < acc.len()
            invariant
                0 <= k <= acc.len(),
                av == records_view(acc@),
                found == exists|q: int| 0 <= q < k && av[q].date == x@.date,
            decreases acc.len() - k,
        {
            let same = acc[k].date.raw() == x.date.raw();
            proof {
                assert(av[k as int].date == acc@[k as int].date@);
            }
            if same {
                found = true;
            }
            k = k + 1;
            proof {
                if same {
                    assert(av[k - 1].date == x@.date);
                }
            }
        }
        proof {
            assert(nv.take(i + 1).drop_last() =~= nv.take(i as int));
            assert(nv.take(i + 1).last() == x@);
        }
        if !found {
            acc.push(x);
            assert(records_view(acc@) =~= av.push(x@));
        }
        i = i + 1;
    }
    assert(nv.take(new.len() as int) =~= nv);
    sort_records_by_date(&acc)
}

/// The date of the last record (`last_date` of the reader).
pub fn last_record_date(records: &Vec<DayRecord>) -> (r: Option<TradeDate>)
    ensures
        r == (if records.len() == 0 {
            None
        } else {
            Some(records@.last().date)
        }),
{
    if records.len() == 0 {
        None
    } else {
        Some(records[records.len() - 1].date)
    }
}

/// The dates of the records, in order (`dates` of the reader).
pub fn record_dates(records: &Vec<DayRecord>) -> (r: Vec<TradeDate>)
    ensures
        r@ == records@.map_values(|x: DayRecord| x.date),
{
    let mut r: Vec<TradeDate> = Vec::new();
    let mut i: usize = 0;
    while i < records.len()
        invariant
            0 <= i <= records.len(),
            r@ == records@.take(i as int).map_values(|x: DayRecord| x.date),
        decreases records.len() - i,
    {
        r.push(records[i].date);
        i = i + 1;
        assert(r@ =~= records@.take(i as int).map_values(|x: DayRecord| x.date));
    }
    assert(records@.take(records.len() as int) =~= records@);
    r
}

// ── laws ───────────────────────────────────────────────────────────────────
proof fn lemma_encode_len(rs: Seq<DayFields>)
    ensures
        encode_records(rs).len() == 32 * rs.len(),
    decreases rs.len(),
{
    if rs.len() > 0 {
        lemma_encode_len(rs.drop_last());
    }
}

proof fn lemma_encode_prefix(rs: Seq<DayFields>, i: int, k: int)
    requires
        0 <= i < rs.len(),
        0 <= k < 32,
    ensures
        encode_records(rs)[32 * i + k] == record_bytes(rs[i])[k],
    decreases rs.len(),
{
    lemma_encode_len(rs.drop_last());
    if i < rs.len() - 1 {
        lemma_encode_prefix(rs.drop_last(), i, k);
        assert(rs.drop_last()[i] == rs[i]);
    }
}

proof fn lemma_record_roundtrip(rs: Seq<DayFields>, i: int)
    requires
        0 <= i < rs.len(),
    ensures
        record_at(encode_records(rs), i) == rs[i],
{
    let b = encode_records(rs);
    let r = rs[i];
    lemma_encode_len(rs);
    assert forall|k: int| 0 <= k < 32 implies b[32 * i + k] == #[trigger] record_bytes(r)[k] by {
        lemma_encode_prefix(rs, i, k);
    }
    lemma_le_roundtrip(r.date);
    lemma_le_roundtrip(r.open as u32);
    lemma_le_roundtrip(r.high as u32);
    lemma_le_roundtrip(r.low as u32);
    lemma_le_roundtrip(r.close as u32);
    lemma_le_roundtrip(r.amount_bits);
    lemma_le_roundtrip(r.volume);
    lemma_i32_u32_roundtrip(r.open);
    lemma_i32_u32_roundtrip(r.high);
    lemma_i32_u32_roundtrip(r.low);
    lemma_i32_u32_roundtrip(r.close);
    let rb = record_bytes(r);
    assert(le_u32_at(b, 32 * i) == r.date) by {
        assert(b[32 * i] == rb[0] && b[32 * i + 1] == rb[1] && b[32 * i + 2] == rb[2] && b[32 * i
            + 3] == rb[3]);
    }
    assert(le_u32_at(b, 32 * i + 4) == r.open as u32) by {
        assert(b[32 * i + 4] == rb[4] && b[32 * i + 5] == rb[5] && b[32 * i + 6] == rb[6] && b[32
            * i + 7] == rb[7]);
    }
    assert(le_u32_at(b, 32 * i + 8) == r.high as u32) by {
        assert(b[32 * i + 8] == rb[8] && b[32 * i + 9] == rb[9] && b[32 * i + 10] == rb[10]
            && b[32 * i + 11] == rb[11]);
    }
    assert(le_u32_at(b, 32 * i + 12) == r.low as u32) by {
        assert(b[32 * i + 12] == rb[12] && b[32 * i + 13] == rb[13] && b[32 * i + 14] == rb[14]
            && b[32 * i + 15] == rb[15]);
    }
    assert(le_u32_at(b, 32 * i + 16) == r.close as u32) by {
        assert(b[32 * i + 16] == rb[16] && b[32 * i + 17] == rb[17] && b[32 * i + 18] == rb[18]
            && b[32 * i + 19] == rb[19]);
    }
    assert(le_u32_at(b, 32 * i + 20) == r.amount_bits) by {
        assert(b[32 * i + 20] == rb[20] && b[32 * i + 21] == rb[21] && b[32 * i + 22] == rb[22]
            && b[32 * i + 23] == rb[23]);
    }
    assert(le_u32_at(b, 32 * i + 24) == r.volume) by {
        assert(b[32 * i + 24] == rb[24] && b[32 * i + 25] == rb[25] && b[32 * i + 26] == rb[26]
            && b[32 * i + 27] == rb[27]);
    }
}

proof fn lemma_all_valid_no_first_invalid(s: Seq<DayFields>)
    requires
        forall|i: int| 0 <= i < s.len() ==> is_valid_raw(#[trigger] s[i].date),
    ensures
        first_invalid_date(s) < 0,
    decreases s.len(),
{
    if s.len() > 0 {
        assert(is_valid_raw(s[0].date));
        assert forall|i: int| 0 <= i < s.drop_first().len() implies is_valid_raw(
            #[trigger] s.drop_first()[i].date,
        ) by {
            assert(s.drop_first()[i] == s[i + 1]);
        }
        lemma_all_valid_no_first_invalid(s.drop_first());
    }
}

/// Reading back what was written gives the written records, sorted by date:
/// for any records, decoding their encoding succeeds with
/// `sort_by_date(records)`.
pub proof fn law_write_read_roundtrip(records: Seq<DayRecord>)
    ensures
        decode_day_file_spec(encode_records(records_view(records))) == Ok::<
            Seq<DayFields>,
            DayFileError,
        >(sort_by_date(records_view(records))),
{
    let rs = records_view(records);
    let b = encode_records(rs);
    lemma_encode_len(rs);
    assert((32 * rs.len()) % 32 == 0) by (nonlinear_arith);
    assert((32 * rs.len()) / 32 == rs.len()) by (nonlinear_arith);
    assert forall|i: int| 0 <= i < rs.len() implies #[trigger] file_records(b)[i] == rs[i] by {
        lemma_record_roundtrip(rs, i);
    }
    assert(file_records(b) =~= rs);
    assert forall|i: int| 0 <= i < rs.len() implies is_valid_raw(#[trigger] rs[i].date) by {
        records[i].date.lemma_valid();
    }
    lemma_all_valid_no_first_invalid(rs);
}

/// A read file is sorted by date and holds exactly the records of the file.
pub proof fn law_read_sorted(b: Seq<u8>)
    ensures
        decode_day_file_spec(b) matches Ok(s) ==> sorted_by_date(s) && s.to_multiset()
            =~= file_records(b).to_multiset(),
{
    lemma_sort_by_date(file_records(b));
}

/// The number stored little-endian in the four bytes at `b[off..off + 4]`,
/// by place value.
pub open spec fn bytes_value(b: Seq<u8>, off: int) -> int {
    b[off] as int + 256 * (b[off + 1] as int) + 65536 * (b[off + 2] as int) + 16777216 * (
    b[off + 3] as int)
}

proof fn lemma_le_value_place(b0: u8, b1: u8, b2: u8, b3: u8)
    ensures
        le_value(b0, b1, b2, b3) as int == b0 as int + 256 * (b1 as int) + 65536 * (b2 as int)
            + 16777216 * (b3 as int),
{
    assert(le_value(b0, b1, b2, b3) == (b0 as u32) + 256 * (b1 as u32) + 65536 * (b2 as u32)
        + 16777216 * (b3 as u32)) by (bit_vector);
}

proof fn lemma_u32_i32_roundtrip(x: u32)
    ensures
        ((x as i32) as u32) == x,
{
    assert(((x as i32) as u32) == x) by (bit_vector);
}

/// The layout of a `.day` file: record `i` is read from the 32 bytes at
/// offset `32 * i`, the date at 0..4, open at 4..8, high at 8..12, low at
/// 12..16, close at 16..20, amount at 20..24 and volume at 24..28, each
/// little-endian (the prices as the bits of an `i32`); a successful read
/// holds that record.
pub proof fn law_day_file_layout(b: Seq<u8>, i: int)
    requires
        0 <= i,
        32 * i + 32 <= b.len(),
    ensures
        file_records(b)[i].date == bytes_value(b, 32 * i),
        file_records(b)[i].open as u32 == bytes_value(b, 32 * i + 4),
        file_records(b)[i].high as u32 == bytes_value(b, 32 * i + 8),
        file_records(b)[i].low as u32 == bytes_value(b, 32 * i + 12),
        file_records(b)[i].close as u32 == bytes_value(b, 32 * i + 16),
        file_records(b)[i].amount_bits == bytes_value(b, 32 * i + 20),
        file_records(b)[i].volume == bytes_value(b, 32 * i + 24),
        decode_day_file_spec(b) matches Ok(s) ==> s.contains(file_records(b)[i]),
{
    assert(i < b.len() / 32) by (nonlinear_arith)
        requires
            0 <= i,
            32 * i + 32 <= b.len(),
    ;
    let o = 32 * i;
    lemma_le_value_place(b[o], b[o + 1], b[o + 2], b[o + 3]);
    lemma_le_value_place(b[o + 4], b[o + 5], b[o + 6], b[o + 7]);
    lemma_le_value_place(b[o + 8], b[o + 9], b[o + 10], b[o + 11]);
    lemma_le_value_place(b[o + 12], b[o + 13], b[o + 14], b[o + 15]);
    lemma_le_value_place(b[o + 16], b[o + 17], b[o + 18], b[o + 19]);
    lemma_le_value_place(b[o + 20], b[o + 21], b[o + 22], b[o + 23]);
    lemma_le_value_place(b[o + 24], b[o + 25], b[o + 26], b[o + 27]);
    lemma_u32_i32_roundtrip(le_u32_at(b, o + 4));
    lemma_u32_i32_roundtrip(le_u32_at(b, o + 8));
    lemma_u32_i32_roundtrip(le_u32_at(b, o + 12));
    lemma_u32_i32_roundtrip(le_u32_at(b, o + 16));
    if let Ok(s) = decode_day_file_spec(b) {
        law_read_sorted(b);
        s.to_multiset_ensures();
        file_records(b).to_multiset_ensures();
        let r = file_records(b)[i];
        assert(file_records(b).contains(r));
        assert(file_records(b).to_multiset().count(r) > 0);
        assert(s.to_multiset() =~= file_records(b).to_multiset());
        assert(s.to_multiset().count(r) > 0);
    }
}

/// The bytes written for record `i` of `rs` are the 32 at offset `32 * i`:
/// the date at 0..4, open at 4..8, high at 8..12, low at 12..16, close at
/// 16..20, amount at 20..24, volume at 24..28, each little-endian, and four
/// zero bytes.
pub proof fn law_day_file_encoding(rs: Seq<DayFields>, i: int)
    requires
        0 <= i < rs.len(),
    ensures
        encode_records(rs).len() == 32 * rs.len(),
        bytes_value(encode_records(rs), 32 * i) == rs[i].date,
        bytes_value(encode_records(rs), 32 * i + 4) == rs[i].open as u32,
        bytes_value(encode_records(rs), 32 * i + 8) == rs[i].high as u32,
        bytes_value(encode_records(rs), 32 * i + 12) == rs[i].low as u32,
        bytes_value(encode_records(rs), 32 * i + 16) == rs[i].close as u32,
        bytes_value(encode_records(rs), 32 * i + 20) == rs[i].amount_bits,
        bytes_value(encode_records(rs), 32 * i + 24) == rs[i].volume,
        encode_records(rs)[32 * i + 28] == 0 && encode_records(rs)[32 * i + 29] == 0
            && encode_records(rs)[32 * i + 30] == 0 && encode_records(rs)[32 * i + 31] == 0,
{
    let b = encode_records(rs);
    lemma_encode_len(rs);
    assert(32 * i + 32 <= b.len()) by (nonlinear_arith)
        requires
            0 <= i < rs.len(),
            b.len() == 32 * rs.len(),
    ;
    lemma_record_roundtrip(rs, i);
    assert forall|k: int| 0 <= k < 32 implies b[32 * i + k] == #[trigger] record_bytes(rs[i])[k] by {
        lemma_encode_prefix(rs, i, k);
    }
    assert(b[32 * i + 28] == record_bytes(rs[i])[28]);
    assert(b[32 * i + 29] == record_bytes(rs[i])[29]);
    assert(b[32 * i + 30] == record_bytes(rs[i])[30]);
    assert(b[32 * i + 31] == record_bytes(rs[i])[31]);
    law_day_file_layout(b, i);
    assert(file_records(b)[i] == record_at(b, i));
    lemma_i32_u32_roundtrip(rs[i].open);
    lemma_i32_u32_roundtrip(rs[i].high);
    lemma_i32_u32_roundtrip(rs[i].low);
    lemma_i32_u32_roundtrip(rs[i].close);
}

proof fn lemma_add_missing(acc: Seq<DayFields>, new: Seq<DayFields>)
    requires
        distinct_dates(acc),
    ensures
        distinct_dates(add_missing_dates(acc, new)),
        add_missing_dates(acc, new).len() >= acc.len(),
        forall|i: int| 0 <= i < acc.len() ==> add_missing_dates(acc, new)[i] == #[trigger] acc[i],
        forall|d: u32| #[trigger] has_date(add_missing_dates(acc, new), d) <==> (has_date(acc, d)
            || has_date(new, d)),
    decreases new.len(),
{
    if new.len() > 0 {
        let nd = new.drop_last();
        lemma_add_missing(acc, nd);
        let prev = add_missing_dates(acc, nd);
        let x = new.last();
        if !has_date(prev, x.date) {
            let r = prev.push(x);
            assert forall|i: int, j: int| 0 <= i < j < r.len() implies r[i].date != r[j].date by {
                if j == prev.len() {
                    assert(r[i] == prev[i]);
                    if prev[i].date == x.date {
                        assert(has_date(prev, x.date));
                    }
                } else {
                    assert(r[i] == prev[i] && r[j] == prev[j]);
                }
            }
        }
        assert forall|d: u32| #[trigger] has_date(add_missing_dates(acc, new), d) <==> (has_date(
            acc,
            d,
        ) || has_date(new, d)) by {
            let res = add_missing_dates(acc, new);
            if has_date(nd, d) {
                let k = choose|k: int| 0 <= k < nd.len() && nd[k].date == d;
                assert(new[k] == nd[k]);
            }
            if has_date(new, d) {
                let k = choose|k: int| 0 <= k < new.len() && new[k].date == d;
                if k < nd.len() {
                    assert(nd[k] == new[k]);
                } else {
                    assert(new[k] == x);
                    if !has_date(prev, x.date) {
                        assert(res[prev.len() as int] == x);
                    }
                }
            }
            if has_date(prev, d) && res != prev {
                let k = choose|k: int| 0 <= k < prev.len() && prev[k].date == d;
                assert(res[k] == prev[k]);
            }
            if has_date(res, d) && res != prev {
                let k = choose|k: int| 0 <= k < res.len() && res[k].date == d;
                if k < prev.len() {
                    assert(res[k] == prev[k]);
                }
            }
        }
    }
}

/// Appending never duplicates a date, keeps every existing record, adds every
/// new date, and leaves the file sorted: when the existing records have
/// distinct dates, so does the merge; each existing record is in it; its
/// dates are those of both inputs; it is sorted by date.
pub proof fn law_append_no_duplicates(existing: Seq<DayFields>, new: Seq<DayFields>)
    requires
        distinct_dates(existing),
    ensures
        distinct_dates(merge_day_records_spec(existing, new)),
        sorted_by_date(merge_day_records_spec(existing, new)),
        forall|i: int|
            0 <= i < existing.len() ==> merge_day_records_spec(existing, new).contains(
                #[trigger] existing[i],
            ),
        forall|d: u32| #[trigger]
            has_date(merge_day_records_spec(existing, new), d) <==> (has_date(existing, d)
                || has_date(new, d)),
{
    let a = add_missing_dates(existing, new);
    lemma_add_missing(existing, new);
    lemma_sort_by_date(a);
    lemma_sort_distinct(a);
    assert forall|i: int| 0 <= i < existing.len() implies merge_day_records_spec(
        existing,
        new,
    ).contains(#[trigger] existing[i]) by {
        assert(a[i] == existing[i]);
        assert(a.contains(existing[i]));
    }
}

} // verus!
