//! Bookkeeping of the daily K-line download, the local import check and the
//! ex-rights event sync: which market a code belongs to, where a run resumes,
//! how outcomes are counted and what the progress messages say.
use vstd::prelude::*;
use crate::text::{
    lemma_two_char_prefix,
    has_prefix, has_prefix_at, chars_of, push_char, push_str, push_signed, push_decimal,
    push_zero_padded, signed_decimal, decimal, zero_padded, contains_text, str_contains, owned,
    texts_view,
};
use crate::date::{TradeDate, is_valid_ymd};
use crate::tdx::paths::{Market, spec_dir_name, utf8_len, utf8_shorter_than, chars_in_bytes, chars_in_first_bytes};

verus! {

/// How much of the history a daily update fetches.
#[derive(Clone, Copy, Debug, PartialEq, Eq, Structural)]
pub enum UpdateMode {
    Full,
    Incremental,
    GapFill,
}

/// Counters of a download or import run.
#[derive(Clone, Debug)]
pub struct DownloadStats {
    pub done: i32,
    pub skipped: i32,
    pub failed: i32,
    pub total: i32,
    /// One line per failed stock, `market#symbol: reason`.
    pub failures: Vec<String>,
}

/// The quote-server market code of a market: Shanghai is 1, Shenzhen and
/// Beijing (served by the Shenzhen servers) are 0.
pub open spec fn spec_market_to_rustdx(m: Market) -> u16 {
    match m {
        Market::Sh => 1,
        _ => 0,
    }
}

pub fn market_to_rustdx(m: Market) -> (r: u16)
    ensures
        r == spec_market_to_rustdx(m),
{
    match m {
        Market::Sz => 0,
        Market::Sh => 1,
        Market::Bj => 0,
    }
}

/// A code listed by the Shenzhen server (`0`) is Beijing when it starts with
/// `83`, `87`, `88` or `43`, Shenzhen otherwise; any other server is
/// Shanghai.
pub open spec fn spec_market_from_code(code: Seq<char>, mkt: u16) -> Market {
    if mkt == 0 {
        if has_prefix(code, seq!['8', '3']) || has_prefix(code, seq!['8', '7']) || has_prefix(
            code,
            seq!['8', '8'],
        ) || has_prefix(code, seq!['4', '3']) {
            Market::Bj
        } else {
            Market::Sz
        }
    } else {
        Market::Sh
    }
}

pub fn market_from_code(code: &str, mkt: u16) -> (r: Market)
    ensures
        r == spec_market_from_code(code@, mkt),
{
    if mkt != 0 {
        return Market::Sh;
    }
    let v = chars_of(code);
    let p83: Vec<char> = vec!['8', '3'];
    let p87: Vec<char> = vec!['8', '7'];
    let p88: Vec<char> = vec!['8', '8'];
    let p43: Vec<char> = vec!['4', '3'];
    proof {
        assert(v@.skip(0) =~= v@);
        assert(p83@ =~= seq!['8', '3']);
        assert(p87@ =~= seq!['8', '7']);
        assert(p88@ =~= seq!['8', '8']);
        assert(p43@ =~= seq!['4', '3']);
    }
    if has_prefix_at(&v, 0, &p83) || has_prefix_at(&v, 0, &p87) || has_prefix_at(&v, 0, &p88)
        || has_prefix_at(&v, 0, &p43) {
        Market::Bj
    } else {
        Market::Sz
    }
}

/// Which market a listed code belongs to, by its leading characters: a code
/// from the Shenzhen server (`0`) that starts with `83`, `87`, `88` or `43`
/// is Beijing and any other Shenzhen; every code from another server is
/// Shanghai.
pub proof fn law_market_from_code_prefixes(code: Seq<char>, mkt: u16)
    ensures
        mkt != 0 ==> spec_market_from_code(code, mkt) == Market::Sh,
        mkt == 0 ==> (spec_market_from_code(code, mkt) == Market::Bj <==> (code.len() >= 2 && ((
        code[0] == '8' && (code[1] == '3' || code[1] == '7' || code[1] == '8')) || (code[0] == '4'
            && code[1] == '3')))),
        mkt == 0 ==> (spec_market_from_code(code, mkt) == Market::Sz <==> !(code.len() >= 2 && ((
        code[0] == '8' && (code[1] == '3' || code[1] == '7' || code[1] == '8')) || (code[0] == '4'
            && code[1] == '3')))),
{
    lemma_two_char_prefix(code, '8', '3');
    lemma_two_char_prefix(code, '8', '7');
    lemma_two_char_prefix(code, '8', '8');
    lemma_two_char_prefix(code, '4', '3');
}

/// Offset of the next page of the security list after a page of
/// `batch_len` entries read at `start`, or `None` when the page was the
/// last (fewer than 1000 entries).  The page length is taken modulo 2^16,
/// as the list offsets are 16-bit.
pub fn next_list_offset(start: u16, batch_len: usize) -> (r: Option<u16>)
    requires
        batch_len < 1000 || start + (batch_len % 65536) <= u16::MAX,
    ensures
        r == (if batch_len < 1000 {
            None
        } else {
            Some((start + (batch_len % 65536)) as u16)
        }),
{
    if batch_len < 1000 {
        return None;
    }
    let step: u16 = (batch_len % 65536) as u16;
    Some(start + step)
}

/// Index of the first stock whose code is `s`, or -1.
pub open spec fn position_of_symbol(stocks: Seq<(Market, Seq<char>)>, s: Seq<char>) -> int
    decreases stocks.len(),
{
    if stocks.len() == 0 {
        -1
    } else if position_of_symbol(stocks.drop_last(), s) >= 0 {
        position_of_symbol(stocks.drop_last(), s)
    } else if stocks.last().1 == s {
        stocks.len() - 1
    } else {
        -1
    }
}

pub open spec fn stocks_view(v: Seq<(Market, String)>) -> Seq<(Market, Seq<char>)> {
    v.map_values(|p: (Market, String)| (p.0, p.1@))
}

/// The position found for a code is that of the first stock listing it,
/// and no position is found only when no stock lists it.
pub proof fn law_position_is_first_listing(stocks: Seq<(Market, Seq<char>)>, s: Seq<char>)
    ensures
        -1 <= position_of_symbol(stocks, s) < stocks.len(),
        position_of_symbol(stocks, s) >= 0 ==> stocks[position_of_symbol(stocks, s)].1 == s,
        forall|i: int|
            0 <= i < stocks.len() && (position_of_symbol(stocks, s) < 0 || i < position_of_symbol(
                stocks,
                s,
            )) ==> #[trigger] stocks[i].1 != s,
    decreases stocks.len(),
{
    if stocks.len() > 0 {
        let p = stocks.drop_last();
        law_position_is_first_listing(p, s);
        assert forall|i: int|
            0 <= i < stocks.len() && (position_of_symbol(stocks, s) < 0 || i < position_of_symbol(
                stocks,
                s,
            )) implies #[trigger] stocks[i].1 != s by {
            if i < stocks.len() - 1 {
                assert(p[i] == stocks[i]);
            }
        }
        if position_of_symbol(p, s) >= 0 {
            assert(p[position_of_symbol(p, s)] == stocks[position_of_symbol(p, s)]);
        }
    }
}

/// Where a run resumes after the checkpoint `last_symbol`: one past the
/// first stock with that code, and one past the first stock when the code
/// is not listed.
pub fn resume_start_index(stocks: &Vec<(Market, String)>, last_symbol: &str) -> (r: usize)
    ensures
        r == (if position_of_symbol(stocks_view(stocks@), last_symbol@) >= 0 {
            position_of_symbol(stocks_view(stocks@), last_symbol@) + 1
        } else {
            1
        }),
{
    let ghost sv = stocks_view(stocks@);
    let target = chars_of(last_symbol);
    let mut i: usize = 0;
    while i < stocks.len()
        invariant
            0 <= i <= stocks.len(),
            sv == stocks_view(stocks@),
            target@ == last_symbol@,
            position_of_symbol(sv.take(i as int), last_symbol@) == -1,
        decreases stocks.len() - i,
    {
        let c = chars_of(stocks[i].1.as_str());
        proof {
            assert(sv.take(i + 1).drop_last() =~= sv.take(i as int));
        }
        if crate::text::chars_eq(&c, &target) {
            proof {
                assert(sv.take(i + 1).last() == sv[i as int]);
                assert(position_of_symbol(sv.take(i + 1), last_symbol@) == i);
                lemma_position_prefix(sv, i + 1);
            }
            return i + 1;
        }
        i = i + 1;
    }
    proof {
        assert(sv.take(stocks.len() as int) =~= sv);
    }
    1
}

/// The first position found in a prefix stays the first position.
proof fn lemma_position_prefix(s: Seq<(Market, Seq<char>)>, k: int)
    requires
        0 <= k <= s.len(),
    ensures
        forall|x: Seq<char>|
            #[trigger] position_of_symbol(s.take(k), x) >= 0 ==> position_of_symbol(s, x)
                == position_of_symbol(s.take(k), x),
    decreases s.len() - k,
{
    if k < s.len() {
        lemma_position_prefix(s, k + 1);
        assert(s.take(k + 1).drop_last() =~= s.take(k));
        assert forall|x: Seq<char>| #[trigger]
            position_of_symbol(s.take(k), x) >= 0 implies position_of_symbol(s, x)
            == position_of_symbol(s.take(k), x) by {
            assert(position_of_symbol(s.take(k + 1), x) == position_of_symbol(s.take(k), x));
        }
    } else {
        assert(s.take(k) =~= s);
    }
}

/// The failure line of a stock: `market#symbol: detail`.
pub open spec fn failure_line(m: Market, symbol: Seq<char>, detail: Seq<char>) -> Seq<char> {
    spec_dir_name(m) + seq!['#'] + symbol + seq![':', ' '] + detail
}

/// The lines of `v` that do not mention `symbol`, in order.
pub open spec fn lines_without(v: Seq<Seq<char>>, symbol: Seq<char>) -> Seq<Seq<char>>
    decreases v.len(),
{
    if v.len() == 0 {
        seq![]
    } else if contains_text(v.last(), symbol) {
        lines_without(v.drop_last(), symbol)
    } else {
        lines_without(v.drop_last(), symbol).push(v.last())
    }
}

fn failure_text(m: Market, symbol: &str, detail: &str) -> (r: String)
    ensures
        r@ == failure_line(m, symbol@, detail@),
{
    let mut r = String::new();
    push_str(&mut r, m.dir_name());
    push_char(&mut r, '#');
    push_str(&mut r, symbol);
    push_char(&mut r, ':');
    push_char(&mut r, ' ');
    push_str(&mut r, detail);
    proof {
        assert(r@ =~= failure_line(m, symbol@, detail@));
    }
    r
}

impl DownloadStats {
    /// Counters of a run over `total` stocks of which `done` are already
    /// through.
    pub fn new(done: i32, total: i32) -> (r: DownloadStats)
        ensures
            r.done == done,
            r.skipped == 0,
            r.failed == 0,
            r.total == total,
            r.failures@.len() == 0,
    {
        DownloadStats { done, skipped: 0, failed: 0, total, failures: Vec::new() }
    }

    /// One more stock brought up to date.
    pub fn record_done(&mut self)
        requires
            old(self).done < i32::MAX,
        ensures
            final(self).done == old(self).done + 1,
            final(self).skipped == old(self).skipped,
            final(self).failed == old(self).failed,
            final(self).total == old(self).total,
            final(self).failures@ == old(self).failures@,
    {
        self.done = self.done + 1;
    }

    /// One more stock passed over.
    pub fn record_skipped(&mut self)
        requires
            old(self).skipped < i32::MAX,
        ensures
            final(self).done == old(self).done,
            final(self).skipped == old(self).skipped + 1,
            final(self).failed == old(self).failed,
            final(self).total == old(self).total,
            final(self).failures@ == old(self).failures@,
    {
        self.skipped = self.skipped + 1;
    }

    /// One more stock failed, for the reason `detail`.
    pub fn record_failure(&mut self, m: Market, symbol: &str, detail: &str)
        requires
            old(self).failed < i32::MAX,
        ensures
            final(self).done == old(self).done,
            final(self).skipped == old(self).skipped,
            final(self).failed == old(self).failed + 1,
            final(self).total == old(self).total,
            texts_view(final(self).failures@) == texts_view(old(self).failures@).push(
                failure_line(m, symbol@, detail@),
            ),
    {
        self.failed = self.failed + 1;
        let line = failure_text(m, symbol, detail);
        let ghost before = self.failures@;
        self.failures.push(line);
        proof {
            assert(texts_view(self.failures@) =~= texts_view(before).push(
                failure_line(m, symbol@, detail@),
            ));
        }
    }

    /// One more stock whose bars were fetched but could not be written.
    pub fn record_write_failure(&mut self, m: Market, symbol: &str, error: &str)
        requires
            old(self).failed < i32::MAX,
        ensures
            final(self).done == old(self).done,
            final(self).skipped == old(self).skipped,
            final(self).failed == old(self).failed + 1,
            final(self).total == old(self).total,
            texts_view(final(self).failures@) == texts_view(old(self).failures@).push(
                failure_line(m, symbol@, "写入失败 "@ + error@),
            ),
    {
        let mut detail = String::new();
        push_str(&mut detail, "写入失败 ");
        push_str(&mut detail, error);
        self.record_failure(m, symbol, detail.as_str());
    }

    /// A stock that had failed went through on a retry: it counts as done,
    /// no longer as failed, and every failure line that mentions its code
    /// is dropped.
    pub fn record_retry_success(&mut self, symbol: &str)
        requires
            old(self).done < i32::MAX,
            old(self).failed > i32::MIN,
        ensures
            final(self).done == old(self).done + 1,
            final(self).skipped == old(self).skipped,
            final(self).failed == old(self).failed - 1,
            final(self).total == old(self).total,
            texts_view(final(self).failures@) == lines_without(
                texts_view(old(self).failures@),
                symbol@,
            ),
    {
        self.done = self.done + 1;
        self.failed = self.failed - 1;
        let ghost fv = texts_view(self.failures@);
        let mut kept: Vec<String> = Vec::new();
        let mut i: usize = 0;
        while i < self.failures.len()
            invariant
                0 <= i <= self.failures.len(),
                fv == texts_view(self.failures@),
                texts_view(kept@) == lines_without(fv.take(i as int), symbol@),
            decreases self.failures.len() - i,
        {
            proof {
                assert(fv.take(i + 1).drop_last() =~= fv.take(i as int));
            }
            if !str_contains(self.failures[i].as_str(), symbol) {
                let ghost before = kept@;
                kept.push(owned(self.failures[i].as_str()));
                proof {
                    assert(texts_view(kept@) =~= texts_view(before).push(fv[i as int]));
                }
            }
            i = i + 1;
        }
        proof {
            assert(fv.take(self.failures.len() as int) =~= fv);
        }
        self.failures = kept;
    }

    /// `正在拉取更新... 已同步: {done}, 跳过: {skipped}, 失败: {failed}`.
    pub fn progress_message(&self) -> (r: String)
        ensures
            r@ == "正在拉取更新... 已同步: "@ + signed_decimal(self.done as int) + ", 跳过: "@
                + signed_decimal(self.skipped as int) + ", 失败: "@ + signed_decimal(
                self.failed as int,
            ),
    {
        let mut r = String::new();
        push_str(&mut r, "正在拉取更新... 已同步: ");
        push_signed(&mut r, self.done as i64);
        push_str(&mut r, ", 跳过: ");
        push_signed(&mut r, self.skipped as i64);
        push_str(&mut r, ", 失败: ");
        push_signed(&mut r, self.failed as i64);
        r
    }

    /// `本地数据校验完成: {done} 有效, {skipped} 跳过, {failed} 失败`.
    pub fn import_summary(&self) -> (r: String)
        ensures
            r@ == "本地数据校验完成: "@ + signed_decimal(self.done as int) + " 有效, "@
                + signed_decimal(self.skipped as int) + " 跳过, "@ + signed_decimal(
                self.failed as int,
            ) + " 失败"@,
    {
        let mut r = String::new();
        push_str(&mut r, "本地数据校验完成: ");
        push_signed(&mut r, self.done as i64);
        push_str(&mut r, " 有效, ");
        push_signed(&mut r, self.skipped as i64);
        push_str(&mut r, " 跳过, ");
        push_signed(&mut r, self.failed as i64);
        push_str(&mut r, " 失败");
        r
    }
}

/// What the download loop does with a stock, given the control value read
/// before it (1 paused, 2 aborted).  While paused the loop waits a moment
/// and reads the value again, so a resume goes on with the same stock and
/// an abort stops the run.
#[derive(Clone, Copy, Debug, PartialEq, Eq, Structural)]
pub enum StockStep {
    /// Save the checkpoint and stop the run.
    Abort,
    /// Paused: wait a moment, then read the control value again.
    Wait,
    Proceed,
}

pub fn stock_step(control: u8) -> (r: StockStep)
    ensures
        r == (if control == 2 {
            StockStep::Abort
        } else if control == 1 {
            StockStep::Wait
        } else {
            StockStep::Proceed
        }),
{
    if control == 2 {
        StockStep::Abort
    } else if control == 1 {
        StockStep::Wait
    } else {
        StockStep::Proceed
    }
}

/// The checkpoint saved when the run is aborted before stock `i`: the code
/// of the stock before it and the position `i`; nothing before the first.
pub fn abort_checkpoint(stocks: &Vec<(Market, String)>, i: usize) -> (r: Option<(String, i32)>)
    requires
        i <= stocks.len(),
    ensures
        r is Some <==> i > 0,
        r matches Some(c) ==> c.0@ == stocks@[i - 1].1@ && c.1 == i as i32,
{
    if i == 0 {
        None
    } else {
        Some((owned(stocks[i - 1].1.as_str()), i as i32))
    }
}

/// Whether the failed stocks get further attempts.
pub fn wants_retry(failed_count: usize, max_attempts: u32) -> (r: bool)
    ensures
        r == (failed_count > 0 && max_attempts > 1),
{
    failed_count > 0 && max_attempts > 1
}

/// `重试 {count} 个失败的股票 (第 {attempt}/{max} 轮)...`.
pub fn retry_message(count: usize, attempt: u32, max_attempts: u32) -> (r: String)
    ensures
        r@ == "重试 "@ + decimal(count as nat) + " 个失败的股票 (第 "@ + decimal(attempt as nat)
            + "/"@ + decimal(max_attempts as nat) + " 轮)..."@,
{
    let mut r = String::new();
    push_str(&mut r, "重试 ");
    push_decimal(&mut r, count as u64);
    push_str(&mut r, " 个失败的股票 (第 ");
    push_decimal(&mut r, attempt as u64);
    push_str(&mut r, "/");
    push_decimal(&mut r, max_attempts as u64);
    push_str(&mut r, " 轮)...");
    r
}

/// `检测到断点，从 {symbol} 恢复 (进度 {progress}/{total})`.
pub fn resume_message(last_symbol: &str, progress: i32, total: i32) -> (r: String)
    ensures
        r@ == "检测到断点，从 "@ + last_symbol@ + " 恢复 (进度 "@ + signed_decimal(progress as int)
            + "/"@ + signed_decimal(total as int) + ")"@,
{
    let mut r = String::new();
    push_str(&mut r, "检测到断点，从 ");
    push_str(&mut r, last_symbol);
    push_str(&mut r, " 恢复 (进度 ");
    push_signed(&mut r, progress as i64);
    push_str(&mut r, "/");
    push_signed(&mut r, total as i64);
    push_str(&mut r, ")");
    r
}

// ── ex-rights events ───────────────────────────────────────────────────────
/// The code of an ex-rights record: its first 6 bytes when it has that
/// many.
pub open spec fn event_code(code: Seq<char>) -> Seq<char> {
    if utf8_len(code) >= 6 {
        code.take(chars_in_bytes(code, 6))
    } else {
        code
    }
}

/// The records on which cutting the code at byte 6 would split a character.
pub open spec fn event_code_splits_char(code: Seq<char>) -> bool {
    utf8_len(code) >= 6 && chars_in_bytes(code, 6) < 0
}

/// Whether cutting `code` at byte 6 would split a character (see
/// `event_code_splits_char`); callers test this before keying a record.
pub fn event_code_would_split(code: &str) -> (r: bool)
    ensures
        r == event_code_splits_char(code@),
{
    let v = chars_of(code);
    proof {
        assert(v@.subrange(0, v.len() as int) =~= v@);
    }
    if utf8_shorter_than(&v, 0, v.len(), 6) {
        return false;
    }
    chars_in_first_bytes(&v, 6).is_none()
}

/// The key fields of an ex-rights event kept in the database.
#[derive(Clone, Debug)]
pub struct XdxrKey {
    /// 1 Shanghai, 2 Beijing, 0 Shenzhen.
    pub market: i32,
    pub symbol: String,
    /// `YYYY-MM-DD`.
    pub ex_date: String,
    pub category: i32,
}

/// The event market: Shanghai when the record says so (1), otherwise Beijing
/// for the codes `83`, `87`, `88`, `43`, otherwise Shenzhen.
pub open spec fn event_market(market_byte: u8, code: Seq<char>) -> i32 {
    if market_byte == 1 {
        1
    } else if has_prefix(code, seq!['8', '3']) || has_prefix(code, seq!['8', '7']) || has_prefix(
        code,
        seq!['8', '8'],
    ) || has_prefix(code, seq!['4', '3']) {
        2
    } else {
        0
    }
}

/// The market of an ex-rights event, by its record's market byte and the
/// leading characters of its code: Shanghai for byte 1, otherwise Beijing
/// for codes starting `83`, `87`, `88` or `43` and Shenzhen for the rest.
pub proof fn law_event_market_prefixes(market_byte: u8, code: Seq<char>)
    ensures
        market_byte == 1 ==> event_market(market_byte, code) == 1,
        market_byte != 1 ==> (event_market(market_byte, code) == 2 <==> (code.len() >= 2 && ((
        code[0] == '8' && (code[1] == '3' || code[1] == '7' || code[1] == '8')) || (code[0] == '4'
            && code[1] == '3')))),
        market_byte != 1 ==> (event_market(market_byte, code) == 0 <==> !(code.len() >= 2 && ((
        code[0] == '8' && (code[1] == '3' || code[1] == '7' || code[1] == '8')) || (code[0] == '4'
            && code[1] == '3')))),
{
    lemma_two_char_prefix(code, '8', '3');
    lemma_two_char_prefix(code, '8', '7');
    lemma_two_char_prefix(code, '8', '8');
    lemma_two_char_prefix(code, '4', '3');
}

/// `{:04}-{:02}-{:02}` of the parts of a packed `yyyymmdd` value.
pub open spec fn packed_date_text(date: u32) -> Seq<char> {
    zero_padded((date / 10000) as nat, 4) + seq!['-'] + zero_padded(((date / 100) % 100) as nat, 2)
        + seq!['-'] + zero_padded((date % 100) as nat, 2)
}

/// The database key of a record of the local ex-rights file, or `None` for
/// a category other than 1 (ex-rights/dividend) and 14.
pub fn xdxr_key(market_byte: u8, code: &str, date: u32, category: u8) -> (r: Option<XdxrKey>)
    requires
        !event_code_splits_char(code@),
    ensures
        r is Some <==> (category == 1 || category == 14),
        r matches Some(k) ==> k.symbol@ == event_code(code@) && k.market == event_market(
            market_byte,
            event_code(code@),
        ) && k.ex_date@ == packed_date_text(date) && k.category == category as i32,
{
    if category != 1 && category != 14 {
        return None;
    }
    let v = chars_of(code);
    let long = !utf8_shorter_than(&v, 0, v.len(), 6);
    proof {
        assert(v@.subrange(0, v.len() as int) =~= v@);
    }
    let symbol = if long {
        match chars_in_first_bytes(&v, 6) {
            Some(k) => crate::text::string_of(&v, 0, k),
            None => owned(code),
        }
    } else {
        owned(code)
    };
    let sv = chars_of(symbol.as_str());
    let p83: Vec<char> = vec!['8', '3'];
    let p87: Vec<char> = vec!['8', '7'];
    let p88: Vec<char> = vec!['8', '8'];
    let p43: Vec<char> = vec!['4', '3'];
    proof {
        assert(sv@.skip(0) =~= sv@);
        assert(p83@ =~= seq!['8', '3']);
        assert(p87@ =~= seq!['8', '7']);
        assert(p88@ =~= seq!['8', '8']);
        assert(p43@ =~= seq!['4', '3']);
        if long {
            assert(v@.subrange(0, chars_in_bytes(v@, 6)) =~= v@.take(chars_in_bytes(v@, 6)));
        }
    }
    let market: i32 = if market_byte == 1 {
        1
    } else if has_prefix_at(&sv, 0, &p83) || has_prefix_at(&sv, 0, &p87) || has_prefix_at(
        &sv,
        0,
        &p88,
    ) || has_prefix_at(&sv, 0, &p43) {
        2
    } else {
        0
    };
    let mut ex_date = String::new();
    push_zero_padded(&mut ex_date, (date / 10000) as u64, 4);
    push_char(&mut ex_date, '-');
    push_zero_padded(&mut ex_date, ((date / 100) % 100) as u64, 2);
    push_char(&mut ex_date, '-');
    push_zero_padded(&mut ex_date, (date % 100) as u64, 2);
    Some(XdxrKey { market, symbol, ex_date, category: category as i32 })
}

/// The date of a downloaded K-line bar: its fields when they make a
/// calendar date, 2000-01-01 otherwise.
pub fn kline_bar_date(year: u16, month: u16, day: u16) -> (r: TradeDate)
    ensures
        is_valid_ymd(year as int, month as int, day as int) ==> r.year() == year && r.month()
            == month && r.day() == day,
        !is_valid_ymd(year as int, month as int, day as int) ==> r.year() == 2000 && r.month() == 1
            && r.day() == 1,
{
    match TradeDate::from_ymd(year as i32, month as u32, day as u32) {
        Some(d) => d,
        None => {
            assert(is_valid_ymd(2000, 1, 1));
            TradeDate::from_ymd(2000, 1, 1).unwrap()
        },
    }
}

// ── the run over the stock list ────────────────────────────────────────────
/// How the download of one stock went.
#[derive(Clone, Debug)]
pub enum StockOutcome {
    /// Bars fetched and written.
    Written,
    /// Bars fetched, the file not written; the error text.
    WriteFailed(String),
    /// Nothing fetched; the error text.
    DownloadFailed(String),
}

/// What the run does next.
#[derive(Clone, Debug)]
pub enum RunStep {
    /// Fetch the stock at this index.
    Download(usize),
    /// Stop, after saving this checkpoint when there is one.
    Abort(Option<(String, i32)>),
    /// Paused: wait a moment and ask again with a fresh control value; the
    /// run stays at the same stock, so a resume fetches it and an abort
    /// stops with its checkpoint.
    Wait,
    /// Every stock has been tried.
    Finished,
}

/// The first pass of a daily update over the stock list.
#[derive(Clone, Debug)]
pub struct DailyRun {
    pub stocks: Vec<(Market, String)>,
    /// Index of the next stock to fetch.
    pub next: usize,
    pub stats: DownloadStats,
    /// The stocks that failed, in order.
    pub failed_stocks: Vec<(Market, String)>,
}

impl DailyRun {
    /// A run over `stocks` resuming at `start_idx`; the stocks before it
    /// count as done.
    pub fn new(stocks: Vec<(Market, String)>, start_idx: usize) -> (r: DailyRun)
        ensures
            r.stocks@ == stocks@,
            r.next == start_idx,
            r.stats.done == start_idx as i32,
            r.stats.skipped == 0 && r.stats.failed == 0,
            r.stats.total == stocks.len() as i32,
            r.stats.failures@.len() == 0,
            r.failed_stocks@.len() == 0,
    {
        let total = stocks.len() as i32;
        DailyRun {
            stocks,
            next: start_idx,
            stats: DownloadStats::new(start_idx as i32, total),
            failed_stocks: Vec::new(),
        }
    }

    /// The next step, given the control value read before the next stock.
    pub fn step(&self, control: u8) -> (r: RunStep)
        ensures
            self.next >= self.stocks.len() ==> r is Finished,
            self.next < self.stocks.len() ==> match r {
                RunStep::Abort(c) => control == 2 && (c is Some <==> self.next > 0) && (c matches Some(
                    cp,
                ) ==> cp.0@ == self.stocks@[self.next - 1].1@ && cp.1 == self.next as i32),
                RunStep::Wait => control == 1,
                RunStep::Download(i) => control != 1 && control != 2 && i == self.next,
                RunStep::Finished => false,
            },
    {
        if self.next >= self.stocks.len() {
            return RunStep::Finished;
        }
        match stock_step(control) {
            StockStep::Abort => RunStep::Abort(abort_checkpoint(&self.stocks, self.next)),
            StockStep::Wait => RunStep::Wait,
            StockStep::Proceed => RunStep::Download(self.next),
        }
    }

    /// Records how the current stock went and moves to the next; every 50th
    /// index gives the checkpoint to save (code and index) and the progress
    /// message.
    pub fn record(&mut self, outcome: StockOutcome) -> (r: Option<(String, i32, String)>)
        requires
            old(self).next < old(self).stocks.len(),
            old(self).stats.done < i32::MAX,
            old(self).stats.failed < i32::MAX,
        ensures
            final(self).stocks@ == old(self).stocks@,
            final(self).next == old(self).next + 1,
            final(self).stats.total == old(self).stats.total,
            final(self).stats.skipped == old(self).stats.skipped,
            match outcome {
                StockOutcome::Written => final(self).stats.done == old(self).stats.done + 1
                    && final(self).stats.failed == old(self).stats.failed && final(self).stats.failures@ == old(self).stats.failures@ && final(self).failed_stocks@
                    == old(self).failed_stocks@,
                StockOutcome::WriteFailed(e) => final(self).stats.done == old(self).stats.done
                    && final(self).stats.failed == old(self).stats.failed + 1 && texts_view(
                    final(self).stats.failures@,
                ) == texts_view(old(self).stats.failures@).push(
                    failure_line(
                        old(self).stocks@[old(self).next as int].0,
                        old(self).stocks@[old(self).next as int].1@,
                        "写入失败 "@ + e@,
                    ),
                ) && final(self).failed_stocks@ == old(self).failed_stocks@.push(
                    old(self).stocks@[old(self).next as int],
                ),
                StockOutcome::DownloadFailed(e) => final(self).stats.done == old(self).stats.done
                    && final(self).stats.failed == old(self).stats.failed + 1 && texts_view(
                    final(self).stats.failures@,
                ) == texts_view(old(self).stats.failures@).push(
                    failure_line(
                        old(self).stocks@[old(self).next as int].0,
                        old(self).stocks@[old(self).next as int].1@,
                        e@,
                    ),
                ) && final(self).failed_stocks@ == old(self).failed_stocks@.push(
                    old(self).stocks@[old(self).next as int],
                ),
            },
            r is Some <==> old(self).next % 50 == 0,
            r matches Some(c) ==> c.0@ == old(self).stocks@[old(self).next as int].1@ && c.1
                == old(self).next as i32 && c.2@ == "正在拉取更新... 已同步: "@ + signed_decimal(
                final(self).stats.done as int,
            ) + ", 跳过: "@ + signed_decimal(final(self).stats.skipped as int) + ", 失败: "@
                + signed_decimal(final(self).stats.failed as int),
    {
        let i = self.next;
        let m = self.stocks[i].0;
        match outcome {
            StockOutcome::Written => {
                self.stats.record_done();
            },
            StockOutcome::WriteFailed(e) => {
                self.stats.record_write_failure(m, self.stocks[i].1.as_str(), e.as_str());
                let entry = (m, self.stocks[i].1.clone());
                self.failed_stocks.push(entry);
            },
            StockOutcome::DownloadFailed(e) => {
                self.stats.record_failure(m, self.stocks[i].1.as_str(), e.as_str());
                let entry = (m, self.stocks[i].1.clone());
                self.failed_stocks.push(entry);
            },
        }
        self.next = i + 1;
        if i % 50 == 0 {
            Some((owned(self.stocks[i].1.as_str()), i as i32, self.stats.progress_message()))
        } else {
            None
        }
    }
}

/// A copy of a stock list.
fn copy_stocks(v: &Vec<(Market, String)>) -> (r: Vec<(Market, String)>)
    ensures
        r@ == v@,
{
    let mut r: Vec<(Market, String)> = Vec::new();
    let mut i: usize = 0;
    while i < v.len()
        invariant
            0 <= i <= v.len(),
            r@ == v@.take(i as int),
        decreases v.len() - i,
    {
        r.push((v[i].0, v[i].1.clone()));
        i = i + 1;
        assert(r@ =~= v@.take(i as int));
    }
    assert(v@.take(v.len() as int) =~= v@);
    r
}

/// One round of retries of the failed stocks.
#[derive(Clone, Debug)]
pub struct RetryRound {
    /// The attempt number of this round (the first pass was attempt 1).
    pub attempt: u32,
    pub max_attempts: u32,
    /// The stocks this round tries.
    pub list: Vec<(Market, String)>,
    /// Index of the next stock of the round.
    pub pos: usize,
    /// The stocks that failed again in this round.
    pub next_retry: Vec<(Market, String)>,
}

/// What a retry round does next.
#[derive(Clone, Copy, Debug, PartialEq, Eq, Structural)]
pub enum RetryStep {
    /// Try the stock of the round at this index again.
    Try(usize),
    /// The round ends: every stock tried, or the run aborted.
    RoundOver,
}

impl DailyRun {
    /// The first retry round (attempt 2) over the failed stocks, when there
    /// are any and more than one attempt is allowed.
    pub fn first_retry_round(&self, max_attempts: u32) -> (r: Option<RetryRound>)
        ensures
            r is Some <==> (self.failed_stocks.len() > 0 && max_attempts > 1),
            r matches Some(rr) ==> rr.attempt == 2 && rr.max_attempts == max_attempts && rr.list@
                == self.failed_stocks@ && rr.pos == 0 && rr.next_retry@.len() == 0,
    {
        if wants_retry(self.failed_stocks.len(), max_attempts) {
            Some(
                RetryRound {
                    attempt: 2,
                    max_attempts,
                    list: copy_stocks(&self.failed_stocks),
                    pos: 0,
                    next_retry: Vec::new(),
                },
            )
        } else {
            None
        }
    }

    /// Records a retry of the round's current stock: a success counts it as
    /// done and drops its failure lines, a failure keeps it for the next
    /// round.
    pub fn record_retry(&mut self, round: &mut RetryRound, ok: bool)
        requires
            old(round).pos < old(round).list.len(),
            old(self).stats.done < i32::MAX,
            old(self).stats.failed > i32::MIN,
        ensures
            final(round).attempt == old(round).attempt,
            final(round).max_attempts == old(round).max_attempts,
            final(round).list@ == old(round).list@,
            final(round).pos == old(round).pos + 1,
            final(self).stocks@ == old(self).stocks@,
            final(self).next == old(self).next,
            final(self).failed_stocks@ == old(self).failed_stocks@,
            ok ==> final(self).stats.done == old(self).stats.done + 1 && final(self).stats.failed
                == old(self).stats.failed - 1 && final(self).stats.skipped == old(self).stats.skipped
                && texts_view(final(self).stats.failures@) == lines_without(
                texts_view(old(self).stats.failures@),
                old(round).list@[old(round).pos as int].1@,
            ) && final(round).next_retry@ == old(round).next_retry@,
            !ok ==> final(self).stats == old(self).stats && final(round).next_retry@ == old(round).next_retry@.push(old(round).list@[old(round).pos as int]),
    {
        let p = round.pos;
        if ok {
            self.stats.record_retry_success(round.list[p].1.as_str());
        } else {
            let entry = (round.list[p].0, round.list[p].1.clone());
            round.next_retry.push(entry);
        }
        round.pos = p + 1;
    }
}

impl RetryRound {
    /// `重试 {n} 个失败的股票 (第 {attempt}/{max} 轮)...`.
    pub fn message(&self) -> (r: String)
        ensures
            r@ == "重试 "@ + decimal(self.list.len() as nat) + " 个失败的股票 (第 "@ + decimal(
                self.attempt as nat,
            ) + "/"@ + decimal(self.max_attempts as nat) + " 轮)..."@,
    {
        retry_message(self.list.len(), self.attempt, self.max_attempts)
    }

    /// The next stock to try, or the end of the round when every stock was
    /// tried or the control value says abort (2).
    pub fn step(&self, control: u8) -> (r: RetryStep)
        ensures
            r == (if self.pos >= self.list.len() || control == 2 {
                RetryStep::RoundOver
            } else {
                RetryStep::Try(self.pos)
            }),
    {
        if self.pos >= self.list.len() || control == 2 {
            RetryStep::RoundOver
        } else {
            RetryStep::Try(self.pos)
        }
    }

    /// The round after this one: over the stocks that failed again, unless
    /// none did or this was the last allowed attempt.
    pub fn advance(self) -> (r: Option<RetryRound>)
        ensures
            r is Some <==> (self.next_retry.len() > 0 && self.attempt < self.max_attempts),
            r matches Some(n) ==> n.attempt == self.attempt + 1 && n.max_attempts
                == self.max_attempts && n.list@ == self.next_retry@ && n.pos == 0
                && n.next_retry@.len() == 0,
    {
        if self.next_retry.len() == 0 || self.attempt >= self.max_attempts {
            return None;
        }
        Some(
            RetryRound {
                attempt: self.attempt + 1,
                max_attempts: self.max_attempts,
                list: self.next_retry,
                pos: 0,
                next_retry: Vec::new(),
            },
        )
    }
}

// ── laws ───────────────────────────────────────────────────────────────────
/// After a stock goes through on a retry, no failure line mentions its
/// code any more, and every line that does not mention it is kept.
pub proof fn law_retry_clears_mentions(lines: Seq<Seq<char>>, symbol: Seq<char>)
    ensures
        forall|k: int|
            0 <= k < lines_without(lines, symbol).len() ==> !contains_text(
                #[trigger] lines_without(lines, symbol)[k],
                symbol,
            ) && lines.contains(lines_without(lines, symbol)[k]),
        forall|k: int|
            0 <= k < lines.len() && !contains_text(#[trigger] lines[k], symbol)
                ==> lines_without(lines, symbol).contains(lines[k]),
    decreases lines.len(),
{
    if lines.len() > 0 {
        let prev = lines.drop_last();
        law_retry_clears_mentions(prev, symbol);
        let r = lines_without(lines, symbol);
        let rp = lines_without(prev, symbol);
        assert forall|k: int| 0 <= k < r.len() implies !contains_text(#[trigger] r[k], symbol)
            && lines.contains(r[k]) by {
            if k < rp.len() {
                assert(r[k] == rp[k]);
                let j = choose|j: int| 0 <= j < prev.len() && prev[j] == rp[k];
                assert(lines[j] == r[k]);
            } else {
                assert(r[k] == lines.last());
                assert(lines[lines.len() - 1] == r[k]);
            }
        }
        assert forall|k: int| 0 <= k < lines.len() && !contains_text(#[trigger] lines[k], symbol)
            implies r.contains(lines[k]) by {
            if k < lines.len() - 1 {
                assert(prev[k] == lines[k]);
                assert(rp.contains(prev[k]));
                let j = choose|j: int| 0 <= j < rp.len() && rp[j] == prev[k];
                assert(r[j] == rp[j]);
            } else {
                assert(r[r.len() - 1] == lines[k]);
            }
        }
    }
}

} // verus!
