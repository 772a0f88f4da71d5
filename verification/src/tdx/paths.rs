//! Markets and the names of TDX `.day` files (`sh600000.day`, `sh#600000.day`).
use vstd::prelude::*;
use crate::text::{
    ascii_lower, ascii_lower_exec, chars_of, has_prefix, has_prefix_at, has_suffix, push_str,
    string_of,
};

verus! {

/// The three exchanges of the TDX data directory (`vipdoc/{sz,sh,bj}`).
#[derive(Clone, Copy, PartialEq, Eq, Structural, Debug)]
pub enum Market {
    Sz,
    Sh,
    Bj,
}

/// Directory name of a market.
pub open spec fn spec_dir_name(m: Market) -> Seq<char> {
    match m {
        Market::Sz => seq!['s', 'z'],
        Market::Sh => seq!['s', 'h'],
        Market::Bj => seq!['b', 'j'],
    }
}

/// The market a two-letter directory name denotes, ignoring ASCII case.
pub open spec fn spec_market_from_dir(s: Seq<char>) -> Option<Market> {
    if s.len() != 2 {
        None
    } else {
        let a = ascii_lower(s[0]);
        let b = ascii_lower(s[1]);
        if a == 's' && b == 'z' {
            Some(Market::Sz)
        } else if a == 's' && b == 'h' {
            Some(Market::Sh)
        } else if a == 'b' && b == 'j' {
            Some(Market::Bj)
        } else {
            None
        }
    }
}

impl Market {
    /// The market's numeric code (`Sz = 0`, `Sh = 1`, `Bj = 2`).
    pub open spec fn spec_code(self) -> i32 {
        match self {
            Market::Sz => 0,
            Market::Sh => 1,
            Market::Bj => 2,
        }
    }

    pub fn code(self) -> (r: i32)
        ensures
            r == self.spec_code(),
    {
        match self {
            Market::Sz => 0,
            Market::Sh => 1,
            Market::Bj => 2,
        }
    }

    pub fn dir_name(self) -> (r: &'static str)
        ensures
            r@ == spec_dir_name(self),
    {
        match self {
            Market::Sz => {
                proof {
                    reveal_strlit("sz");
                }
                "sz"
            },
            Market::Sh => {
                proof {
                    reveal_strlit("sh");
                }
                "sh"
            },
            Market::Bj => {
                proof {
                    reveal_strlit("bj");
                }
                "bj"
            },
        }
    }

    /// The market named by `s` (`"sh"`, `"SZ"`, ...).
    pub fn from_dir(s: &str) -> (r: Option<Market>)
        ensures
            r == spec_market_from_dir(s@),
    {
        let v = chars_of(s);
        market_from_chars(&v, 0, v.len())
    }
}

/// The market named by `v[from..to]`.
pub fn market_from_chars(v: &Vec<char>, from: usize, to: usize) -> (r: Option<Market>)
    requires
        from <= to <= v.len(),
    ensures
        r == spec_market_from_dir(v@.subrange(from as int, to as int)),
{
    if to - from != 2 {
        return None;
    }
    let a = ascii_lower_exec(v[from]);
    let b = ascii_lower_exec(v[from + 1]);
    if a == 's' && b == 'z' {
        Some(Market::Sz)
    } else if a == 's' && b == 'h' {
        Some(Market::Sh)
    } else if a == 'b' && b == 'j' {
        Some(Market::Bj)
    } else {
        None
    }
}

pub fn market_dir_name(market: Market) -> (r: &'static str)
    ensures
        r@ == spec_dir_name(market),
{
    market.dir_name()
}

// ── UTF-8 lengths ──────────────────────────────────────────────────────────
/// Number of bytes of `c` in UTF-8.
pub open spec fn char_width(c: char) -> nat {
    if (c as u32) < 0x80 {
        1
    } else if (c as u32) < 0x800 {
        2
    } else if (c as u32) < 0x10000 {
        3
    } else {
        4
    }
}

/// Number of bytes of `s` in UTF-8 (`str::len`).
pub open spec fn utf8_len(s: Seq<char>) -> nat
    decreases s.len(),
{
    if s.len() == 0 {
        0
    } else {
        utf8_len(s.drop_last()) + char_width(s.last())
    }
}

pub fn char_width_exec(c: char) -> (r: usize)
    ensures
        r == char_width(c),
{
    let u = c as u32;
    if u < 0x80 {
        1
    } else if u < 0x800 {
        2
    } else if u < 0x10000 {
        3
    } else {
        4
    }
}

proof fn lemma_utf8_len_take(s: Seq<char>, i: int)
    requires
        0 <= i <= s.len(),
    ensures
        utf8_len(s.take(i)) <= utf8_len(s),
    decreases s.len() - i,
{
    if i < s.len() {
        lemma_utf8_len_take(s, i + 1);
        assert(s.take(i + 1).drop_last() =~= s.take(i));
    } else {
        assert(s.take(i) =~= s);
    }
}

/// Whether `v[from..to]` takes fewer than `limit` bytes in UTF-8.
pub fn utf8_shorter_than(v: &Vec<char>, from: usize, to: usize, limit: usize) -> (r: bool)
    requires
        from <= to <= v.len(),
        limit <= 16,
    ensures
        r == (utf8_len(v@.subrange(from as int, to as int)) < limit),
{
    let ghost s = v@.subrange(from as int, to as int);
    let mut i: usize = from;
    let mut total: usize = 0;
    while i < to && total < limit
        invariant
            from <= i <= to <= v.len(),
            limit <= 16,
            s == v@.subrange(from as int, to as int),
            total == utf8_len(s.take(i - from)),
            total < limit + 4,
        decreases to - i,
    {
        total = total + char_width_exec(v[i]);
        i = i + 1;
        assert(s.take(i - from).drop_last() =~= s.take(i - 1 - from));
    }
    proof {
        if i == to {
            assert(s.take(i - from) =~= s);
        } else {
            lemma_utf8_len_take(s, i - from);
        }
    }
    total < limit
}

/// Number of characters of `s` that make up its first `n` bytes in UTF-8,
/// or -1 when byte `n` falls inside a character.
pub open spec fn chars_in_bytes(s: Seq<char>, n: nat) -> int
    decreases s.len(),
{
    if n == 0 {
        0
    } else if s.len() == 0 || char_width(s[0]) > n {
        -1
    } else {
        let k = chars_in_bytes(s.drop_first(), (n - char_width(s[0])) as nat);
        if k < 0 {
            -1
        } else {
            k + 1
        }
    }
}

/// Number of characters of `v` in its first `n` bytes, or `None` when byte
/// `n` falls inside a character or past the end.
pub fn chars_in_first_bytes(v: &Vec<char>, n: usize) -> (r: Option<usize>)
    requires
        n <= 16,
    ensures
        match r {
            Some(k) => chars_in_bytes(v@, n as nat) == k && k <= v.len(),
            None => chars_in_bytes(v@, n as nat) < 0,
        },
{
    let mut i: usize = 0;
    let mut used: usize = 0;
    assert(v@.skip(0) =~= v@);
    while used < n
        invariant
            0 <= i <= v.len(),
            used <= n <= 16,
            chars_in_bytes(v@, n as nat) == (if chars_in_bytes(v@.skip(i as int), (n - used) as nat)
                < 0 {
                -1
            } else {
                chars_in_bytes(v@.skip(i as int), (n - used) as nat) + i
            }),
        decreases n - used,
    {
        let ghost rest = v@.skip(i as int);
        if i == v.len() {
            return None;
        }
        let w = char_width_exec(v[i]);
        assert(rest[0] == v@[i as int]);
        if w > n - used {
            return None;
        }
        proof {
            assert(rest.drop_first() =~= v@.skip(i + 1));
        }
        used = used + w;
        i = i + 1;
    }
    Some(i)
}

// ── `.day` file names ──────────────────────────────────────────────────────
pub open spec fn day_suffix() -> Seq<char> {
    seq!['.', 'd', 'a', 'y']
}

/// Index of the first `c` in `s`, or -1.
pub open spec fn index_of(s: Seq<char>, c: char) -> int
    decreases s.len(),
{
    if s.len() == 0 {
        -1
    } else if s[0] == c {
        0
    } else {
        let r = index_of(s.drop_first(), c);
        if r < 0 {
            -1
        } else {
            r + 1
        }
    }
}

/// The stem of a `.day` file name.
pub open spec fn day_stem(name: Seq<char>) -> Seq<char> {
    name.take(name.len() - 4)
}

/// The names on which `split_at(2)` of the stem would cut a character in
/// two: a `.day` name whose stem has at least three bytes, holds no `#`, and
/// whose second byte is not a character boundary.
pub open spec fn day_filename_splits_char(name: Seq<char>) -> bool {
    let stem = day_stem(name);
    &&& has_suffix(name, day_suffix())
    &&& utf8_len(stem) >= 3
    &&& index_of(stem, '#') < 0
    &&& !(char_width(stem[0]) == 2 || (char_width(stem[0]) == 1 && char_width(stem[1]) == 1))
}

/// `(market, code)` of a file name `sh600000.day` or `sh#600000.day`.
pub open spec fn spec_parse_day_filename(name: Seq<char>) -> Option<(Market, Seq<char>)> {
    if !has_suffix(name, day_suffix()) {
        None
    } else {
        let stem = day_stem(name);
        if utf8_len(stem) < 3 {
            None
        } else {
            let k = index_of(stem, '#');
            if k >= 0 {
                match spec_market_from_dir(stem.take(k)) {
                    Some(m) => Some((m, stem.skip(k + 1))),
                    None => None,
                }
            } else if char_width(stem[0]) == 1 && char_width(stem[1]) == 1 {
                match spec_market_from_dir(stem.take(2)) {
                    Some(m) => Some((m, stem.skip(2))),
                    None => None,
                }
            } else {
                None
            }
        }
    }
}

pub proof fn lemma_index_of(s: Seq<char>, c: char)
    ensures
        -1 <= index_of(s, c) < s.len(),
        index_of(s, c) >= 0 ==> s[index_of(s, c)] == c,
        forall|k: int|
            0 <= k < s.len() && (index_of(s, c) < 0 || k < index_of(s, c)) ==> #[trigger] s[k]
                != c,
    decreases s.len(),
{
    if s.len() > 0 && s[0] != c {
        lemma_index_of(s.drop_first(), c);
        assert forall|k: int|
            0 <= k < s.len() && (index_of(s, c) < 0 || k < index_of(s, c)) implies #[trigger] s[k]
            != c by {
            if k > 0 {
                assert(s[k] == s.drop_first()[k - 1]);
            }
        }
    }
}

proof fn lemma_index_of_exact(s: Seq<char>, c: char, k: int)
    requires
        0 <= k <= s.len(),
        forall|q: int| 0 <= q < k ==> s[q] != c,
        k < s.len() ==> s[k] == c,
    ensures
        index_of(s, c) == (if k < s.len() {
            k
        } else {
            -1
        }),
    decreases k,
{
    if k > 0 {
        lemma_index_of_exact(s.drop_first(), c, k - 1);
    }
}

/// Index of the first `c` in `v[from..to]`, counted from `from`; `to - from`
/// when there is none.
pub fn find_char(v: &Vec<char>, from: usize, to: usize, c: char) -> (r: usize)
    requires
        from <= to <= v.len(),
    ensures
        r <= to - from,
        index_of(v@.subrange(from as int, to as int), c) == (if r < to - from {
            r as int
        } else {
            -1
        }),
{
    let ghost s = v@.subrange(from as int, to as int);
    let mut k: usize = 0;
    while from + k < to && v[from + k] != c
        invariant
            from <= to <= v.len(),
            k <= to - from,
            s == v@.subrange(from as int, to as int),
            forall|q: int| 0 <= q < k ==> s[q] != c,
        decreases to - from - k,
    {
        k = k + 1;
    }
    proof {
        lemma_index_of_exact(s, c, k as int);
    }
    k
}

/// `(market, code)` of a `.day` file name: `sh600000.day` and `sh#600000.day`
/// both give `(Sh, "600000")`; the market prefix is read without regard to
/// ASCII case.
pub fn parse_day_filename(name: &str) -> (r: Option<(Market, String)>)
    requires
        !day_filename_splits_char(name@),
    ensures
        match spec_parse_day_filename(name@) {
            Some((m, code)) => r matches Some((rm, rc)) && rm == m && rc@ == code,
            None => r is None,
        },
{
    let v = chars_of(name);
    let suffix: Vec<char> = vec!['.', 'd', 'a', 'y'];
    if v.len() < 4 {
        return None;
    }
    let stem_end = v.len() - 4;
    if !has_prefix_at(&v, stem_end, &suffix) {
        proof {
            assert(v@.skip(stem_end as int).take(4) =~= v@.skip(stem_end as int));
        }
        return None;
    }
    proof {
        assert(v@.skip(stem_end as int).take(4) =~= v@.skip(stem_end as int));
        assert(v@.subrange(0, stem_end as int) =~= day_stem(v@));
    }
    let ghost stem = day_stem(v@);
    if utf8_shorter_than(&v, 0, stem_end, 3) {
        return None;
    }
    let k = find_char(&v, 0, stem_end, '#');
    if k < stem_end {
        proof {
            assert(v@.subrange(0, k as int) =~= stem.take(k as int));
            assert(v@.subrange(k + 1, stem_end as int) =~= stem.skip(k + 1));
        }
        match market_from_chars(&v, 0, k) {
            Some(m) => Some((m, string_of(&v, k + 1, stem_end))),
            None => None,
        }
    } else {
        assert(stem.len() >= 1) by {
            if stem.len() == 0 {
                assert(stem =~= Seq::<char>::empty());
            }
        }
        if stem_end >= 2 && char_width_exec(v[0]) == 1 && char_width_exec(v[1]) == 1 {
            proof {
                assert(v@.subrange(0, 2) =~= stem.take(2));
                assert(v@.subrange(2, stem_end as int) =~= stem.skip(2));
            }
            match market_from_chars(&v, 0, 2) {
                Some(m) => Some((m, string_of(&v, 2, stem_end))),
                None => None,
            }
        } else {
            proof {
                if char_width(stem[0]) == 1 {
                    assert(stem.len() >= 2) by {
                        if stem.len() == 1 {
                            assert(stem.drop_last() =~= Seq::<char>::empty());
                            assert(utf8_len(stem) == utf8_len(stem.drop_last()) + char_width(
                                stem.last(),
                            ));
                            assert(stem.last() == stem[0]);
                        }
                    }
                }
            }
            None
        }
    }
}

/// Whether `name` is one of the `.day` names whose stem `parse_day_filename`
/// would have to cut inside a character (see `day_filename_splits_char`);
/// callers test this before handing a directory entry to it.
pub fn day_filename_would_split(name: &str) -> (r: bool)
    ensures
        r == day_filename_splits_char(name@),
{
    let v = chars_of(name);
    let suffix: Vec<char> = vec!['.', 'd', 'a', 'y'];
    if v.len() < 4 {
        return false;
    }
    let stem_end = v.len() - 4;
    if !has_prefix_at(&v, stem_end, &suffix) {
        proof {
            assert(v@.skip(stem_end as int).take(4) =~= v@.skip(stem_end as int));
        }
        return false;
    }
    proof {
        assert(v@.skip(stem_end as int).take(4) =~= v@.skip(stem_end as int));
        assert(v@.subrange(0, stem_end as int) =~= day_stem(v@));
    }
    let ghost stem = day_stem(v@);
    if utf8_shorter_than(&v, 0, stem_end, 3) {
        return false;
    }
    let k = find_char(&v, 0, stem_end, '#');
    if k < stem_end {
        return false;
    }
    assert(stem.len() >= 1) by {
        if stem.len() == 0 {
            assert(stem =~= Seq::<char>::empty());
        }
    }
    proof {
        if char_width(stem[0]) == 1 {
            assert(stem.len() >= 2) by {
                if stem.len() == 1 {
                    assert(stem.drop_last() =~= Seq::<char>::empty());
                    assert(utf8_len(stem) == utf8_len(stem.drop_last()) + char_width(stem.last()));
                    assert(stem.last() == stem[0]);
                }
            }
        }
    }
    let w0 = char_width_exec(v[0]);
    if w0 == 2 {
        return false;
    }
    if w0 != 1 {
        return true;
    }
    char_width_exec(v[1]) != 1
}

/// The standard file name of a symbol (`sh600000.day`).
pub open spec fn standard_day_filename(market: Market, symbol: Seq<char>) -> Seq<char> {
    spec_dir_name(market) + symbol + day_suffix()
}

/// The `#`-separated file name of a symbol (`sh#600000.day`).
pub open spec fn hash_day_filename(market: Market, symbol: Seq<char>) -> Seq<char> {
    spec_dir_name(market) + seq!['#'] + symbol + day_suffix()
}

/// The file name under which a symbol's `.day` file is looked up: the standard
/// name when a file of that name exists in the market's `lday` directory
/// (`standard_exists`), the `#`-separated name otherwise.
pub fn get_day_filename(market: Market, symbol: &str, standard_exists: bool) -> (r: String)
    ensures
        r@ == if standard_exists {
            standard_day_filename(market, symbol@)
        } else {
            hash_day_filename(market, symbol@)
        },
{
    let mut r = String::new();
    push_str(&mut r, market.dir_name());
    proof {
        reveal_strlit("#");
    }
    if !standard_exists {
        push_str(&mut r, "#");
    }
    push_str(&mut r, symbol);
    proof {
        reveal_strlit(".day");
    }
    push_str(&mut r, ".day");
    proof {
        assert(seq!['#'] =~= "#"@);
    }
    r
}

/// The symbols named by the `.day` files among `names`, in order: every name
/// that `parse_day_filename` accepts contributes its `(market, code)`.
pub open spec fn spec_day_symbols(names: Seq<Seq<char>>) -> Seq<(Market, Seq<char>)>
    decreases names.len(),
{
    if names.len() == 0 {
        Seq::empty()
    } else {
        let rest = spec_day_symbols(names.drop_last());
        match spec_parse_day_filename(names.last()) {
            Some(p) => rest.push(p),
            None => rest,
        }
    }
}

/// The view of a list of `(market, code)` pairs.
pub open spec fn symbols_view(v: Seq<(Market, String)>) -> Seq<(Market, Seq<char>)> {
    v.map_values(|p: (Market, String)| (p.0, p.1@))
}

/// How many of `names` are `.day` names that `parse_day_filename` accepts.
pub open spec fn accepted_name_count(names: Seq<Seq<char>>) -> nat
    decreases names.len(),
{
    if names.len() == 0 {
        0
    } else {
        accepted_name_count(names.drop_last()) + if spec_parse_day_filename(names.last()) is Some {
            1nat
        } else {
            0nat
        }
    }
}

/// The listed symbols are exactly the parses of the accepted names, whatever
/// their market: every accepted name contributes its `(market, code)`, each
/// listed pair comes from some accepted name, and there are as many pairs as
/// accepted names.
pub proof fn law_day_symbols_are_the_accepted_names(names: Seq<Seq<char>>)
    ensures
        spec_day_symbols(names).len() == accepted_name_count(names),
        forall|i: int|
            0 <= i < names.len() && #[trigger] spec_parse_day_filename(names[i]) is Some
                ==> spec_day_symbols(names).contains(spec_parse_day_filename(names[i]).unwrap()),
        forall|k: int|
            0 <= k < spec_day_symbols(names).len() ==> exists|i: int|
                0 <= i < names.len() && spec_parse_day_filename(names[i]) == Some(
                    #[trigger] spec_day_symbols(names)[k],
                ),
    decreases names.len(),
{
    if names.len() > 0 {
        let p = names.drop_last();
        law_day_symbols_are_the_accepted_names(p);
        let r = spec_day_symbols(names);
        let rp = spec_day_symbols(p);
        assert forall|i: int|
            0 <= i < names.len() && #[trigger] spec_parse_day_filename(names[i]) is Some
                implies r.contains(spec_parse_day_filename(names[i]).unwrap()) by {
            if i < names.len() - 1 {
                assert(p[i] == names[i]);
                assert(spec_parse_day_filename(p[i]) is Some);
                let k = choose|k: int| 0 <= k < rp.len() && rp[k] == spec_parse_day_filename(p[i]).unwrap();
                assert(r[k] == rp[k]);
            } else {
                assert(names[i] == names.last());
                assert(r[r.len() - 1] == spec_parse_day_filename(names[i]).unwrap());
            }
        }
        assert forall|k: int| 0 <= k < r.len() implies exists|i: int|
            0 <= i < names.len() && spec_parse_day_filename(names[i]) == Some(#[trigger] r[k]) by {
            if k < rp.len() {
                assert(r[k] == rp[k]);
                let i = choose|i: int| 0 <= i < p.len() && spec_parse_day_filename(p[i]) == Some(rp[k]);
                assert(names[i] == p[i]);
            } else {
                assert(names[names.len() - 1] == names.last());
            }
        }
    }
}

/// The `(market, code)` pairs of the `.day` files among the directory entry
/// names `names` (the body of `list_day_symbols`, after the directory reads).
pub fn day_symbols_from_names(names: &Vec<String>) -> (r: Vec<(Market, String)>)
    requires
        forall|i: int| 0 <= i < names.len() ==> !day_filename_splits_char(#[trigger] names[i]@),
    ensures
        symbols_view(r@) == spec_day_symbols(names@.map_values(|s: String| s@)),
{
    let ghost views = names@.map_values(|s: String| s@);
    let mut r: Vec<(Market, String)> = Vec::new();
    let mut i: usize = 0;
    while i < names.len()
        invariant
            0 <= i <= names.len(),
            views == names@.map_values(|s: String| s@),
            forall|q: int| 0 <= q < names.len() ==> !day_filename_splits_char(#[trigger] names[q]@),
            symbols_view(r@) == spec_day_symbols(views.take(i as int)),
        decreases names.len() - i,
    {
        let parsed = parse_day_filename(names[i].as_str());
        proof {
            assert(views.take(i + 1).drop_last() =~= views.take(i as int));
            assert(views.take(i + 1).last() == names[i as int]@);
        }
        match parsed {
            Some(p) => {
                r.push(p);
                assert(symbols_view(r@) =~= spec_day_symbols(views.take(i as int)).push(
                    (p.0, p.1@),
                ));
            },
            None => {},
        }
        i = i + 1;
    }
    assert(views.take(names.len() as int) =~= views);
    r
}

// ── laws ───────────────────────────────────────────────────────────────────
/// A market's directory name reads back as that market.
pub proof fn law_dir_name_roundtrip(m: Market)
    ensures
        spec_market_from_dir(spec_dir_name(m)) == Some(m),
{
}

/// A name denotes a market exactly when, with its ASCII letters lowered, it
/// is that market's directory name; distinct markets have distinct names.
pub proof fn law_from_dir_is_case_folded_name(s: Seq<char>, m: Market, n: Market)
    ensures
        spec_market_from_dir(s) == Some(m) <==> s.map_values(|c: char| ascii_lower(c))
            == spec_dir_name(m),
        spec_dir_name(m) == spec_dir_name(n) ==> m == n,
{
    let l = s.map_values(|c: char| ascii_lower(c));
    if l == spec_dir_name(m) {
        assert(l.len() == 2);
        assert(l[0] == ascii_lower(s[0]) && l[1] == ascii_lower(s[1]));
    }
    if spec_market_from_dir(s) == Some(m) {
        assert(l =~= spec_dir_name(m));
    }
    if spec_dir_name(m) == spec_dir_name(n) {
        assert(spec_dir_name(m)[0] == spec_dir_name(n)[0]);
        assert(spec_dir_name(m)[1] == spec_dir_name(n)[1]);
    }
}

proof fn lemma_utf8_len_positive(s: Seq<char>)
    requires
        s.len() > 0,
    ensures
        utf8_len(s) >= 1,
    decreases s.len(),
{
    if s.len() > 1 {
        lemma_utf8_len_positive(s.drop_last());
    }
}

proof fn lemma_utf8_len_concat(a: Seq<char>, b: Seq<char>)
    ensures
        utf8_len(a + b) == utf8_len(a) + utf8_len(b),
    decreases b.len(),
{
    if b.len() > 0 {
        lemma_utf8_len_concat(a, b.drop_last());
        assert((a + b).drop_last() =~= a + b.drop_last());
    } else {
        assert(a + b =~= a);
    }
}

proof fn lemma_index_of_none(s: Seq<char>, c: char)
    requires
        forall|i: int| 0 <= i < s.len() ==> s[i] != c,
    ensures
        index_of(s, c) == -1,
    decreases s.len(),
{
    if s.len() > 0 {
        lemma_index_of_none(s.drop_first(), c);
    }
}

/// The file name written for a symbol reads back as that market and
/// symbol: the `#` form for any symbol, the standard form for a non-empty
/// symbol without `#`.
pub proof fn law_day_filename_roundtrip(m: Market, symbol: Seq<char>)
    ensures
        spec_parse_day_filename(hash_day_filename(m, symbol)) == Some((m, symbol)),
        symbol.len() > 0 && (forall|i: int| 0 <= i < symbol.len() ==> symbol[i] != '#')
            ==> spec_parse_day_filename(standard_day_filename(m, symbol)) == Some((m, symbol)),
{
    let d = spec_dir_name(m);
    let hn = hash_day_filename(m, symbol);
    let hs = d + seq!['#'] + symbol;
    assert(hn =~= hs + day_suffix());
    assert(day_stem(hn) =~= hs);
    assert(hn.skip(hn.len() - 4) =~= day_suffix());
    lemma_utf8_len_concat(d + seq!['#'], symbol);
    lemma_utf8_len_concat(d, seq!['#']);
    assert(seq!['#'].drop_last() =~= Seq::<char>::empty());
    assert(utf8_len(d) == 2) by {
        reveal_with_fuel(utf8_len, 3);
        assert(d.drop_last().drop_last() =~= Seq::<char>::empty());
        assert(d.drop_last().last() == d[0]);
    }
    assert(index_of(hs, '#') == 2) by {
        reveal_with_fuel(index_of, 3);
        assert(hs.drop_first().drop_first() =~= seq!['#'] + symbol);
        assert(hs.drop_first()[0] == d[1]);
    }
    assert(hs.take(2) =~= d);
    assert(hs.skip(3) =~= symbol);
    if symbol.len() > 0 && (forall|i: int| 0 <= i < symbol.len() ==> symbol[i] != '#') {
        let sn = standard_day_filename(m, symbol);
        let ss = d + symbol;
        assert(sn =~= ss + day_suffix());
        assert(day_stem(sn) =~= ss);
        assert(sn.skip(sn.len() - 4) =~= day_suffix());
        lemma_utf8_len_concat(d, symbol);
        lemma_utf8_len_positive(symbol);
        lemma_index_of_none(ss, '#');
        assert(ss.take(2) =~= d);
        assert(ss.skip(2) =~= symbol);
    }
}

} // verus!
