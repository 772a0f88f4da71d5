//! Character-level helpers shared by the parsers and formatters of the crate.
//!
//! Strings are modelled by their view, a `Seq<char>`.  The helpers here convert
//! between `&str`/`String` and `Vec<char>`, and give the small pieces of text
//! processing (digits, white space, prefixes, ordering) a specification.
use vstd::prelude::*;

verus! {

/// Appends one character to a `String` (`String::push`).
#[verifier::external_body]
pub(crate) fn push_char(s: &mut String, c: char)
    ensures
        final(s)@ == old(s)@.push(c),
{
    s.push(c);
}

/// The text of each string of `v`.
pub open spec fn texts_view(v: Seq<String>) -> Seq<Seq<char>> {
    v.map_values(|s: String| s@)
}

/// The characters of `s`, in order.
pub fn chars_of(s: &str) -> (r: Vec<char>)
    ensures
        r@ == s@,
{
    let mut r: Vec<char> = Vec::new();
    for c in it: s.chars()
        invariant
            it.seq() == s@,
            r@ == it.seq().take(it.index() as int),
    {
        r.push(c);
    }
    assert(r@ == s@.take(s@.len() as int));
    r
}

/// Appends the characters `v[from..to]` to `s`.
pub fn push_chars(s: &mut String, v: &Vec<char>, from: usize, to: usize)
    requires
        from <= to <= v.len(),
    ensures
        final(s)@ == old(s)@ + v@.subrange(from as int, to as int),
{
    let mut i: usize = from;
    while i < to
        invariant
            from <= i <= to <= v.len(),
            s@ == old(s)@ + v@.subrange(from as int, i as int),
        decreases to - i,
    {
        push_char(s, v[i]);
        i = i + 1;
        assert(v@.subrange(from as int, i as int) =~= v@.subrange(from as int, i - 1).push(
            v@[i - 1],
        ));
    }
}

/// A `String` holding the characters `v[from..to]`.
pub fn string_of(v: &Vec<char>, from: usize, to: usize) -> (r: String)
    requires
        from <= to <= v.len(),
    ensures
        r@ == v@.subrange(from as int, to as int),
{
    let mut r = String::new();
    push_chars(&mut r, v, from, to);
    r
}

/// A `String` holding a copy of the text of `s`.
pub fn owned(s: &str) -> (r: String)
    ensures
        r@ == s@,
{
    let v = chars_of(s);
    let r = string_of(&v, 0, v.len());
    assert(v@.subrange(0, v@.len() as int) =~= v@);
    r
}

/// Appends the text of `t` to `s`.
pub fn push_str(s: &mut String, t: &str)
    ensures
        final(s)@ == old(s)@ + t@,
{
    let v = chars_of(t);
    push_chars(s, &v, 0, v.len());
    assert(v@.subrange(0, v@.len() as int) =~= v@);
}

// ── character classes ──────────────────────────────────────────────────────
pub open spec fn is_ascii_digit(c: char) -> bool {
    '0' <= c && c <= '9'
}

pub open spec fn digit_value(c: char) -> int {
    (c as int) - ('0' as int)
}

pub open spec fn is_ascii_upper(c: char) -> bool {
    'A' <= c && c <= 'Z'
}

/// ASCII lower-casing: upper-case ASCII letters map to lower case, every other
/// character is left unchanged.
pub open spec fn ascii_lower(c: char) -> char {
    if is_ascii_upper(c) {
        ((c as u32) + 32) as char
    } else {
        c
    }
}

/// The characters with the Unicode `White_Space` property.
pub open spec fn is_white_space(c: char) -> bool {
    let u = c as u32;
    (0x09 <= u && u <= 0x0D) || u == 0x20 || u == 0x85 || u == 0xA0 || u == 0x1680 || (0x2000
        <= u && u <= 0x200A) || u == 0x2028 || u == 0x2029 || u == 0x202F || u == 0x205F || u
        == 0x3000
}

pub fn ascii_lower_exec(c: char) -> (r: char)
    ensures
        r == ascii_lower(c),
{
    if 'A' <= c && c <= 'Z' {
        let b: u8 = (c as u8) + 32;
        (b as char)
    } else {
        c
    }
}

pub fn is_white_space_exec(c: char) -> (r: bool)
    ensures
        r == is_white_space(c),
{
    let u = c as u32;
    (0x09 <= u && u <= 0x0D) || u == 0x20 || u == 0x85 || u == 0xA0 || u == 0x1680 || (0x2000
        <= u && u <= 0x200A) || u == 0x2028 || u == 0x2029 || u == 0x202F || u == 0x205F || u
        == 0x3000
}

// ── trimming ───────────────────────────────────────────────────────────────
/// Number of leading white-space characters of `s`.
pub open spec fn leading_ws(s: Seq<char>) -> nat
    decreases s.len(),
{
    if s.len() > 0 && is_white_space(s[0]) {
        1 + leading_ws(s.drop_first())
    } else {
        0
    }
}

/// Number of trailing white-space characters of `s`.
pub open spec fn trailing_ws(s: Seq<char>) -> nat
    decreases s.len(),
{
    if s.len() > 0 && is_white_space(s.last()) {
        1 + trailing_ws(s.drop_last())
    } else {
        0
    }
}

/// `s` with leading and trailing white space removed (`str::trim`).
pub open spec fn trim(s: Seq<char>) -> Seq<char> {
    let t = s.skip(leading_ws(s) as int);
    t.take(t.len() - trailing_ws(t))
}

proof fn lemma_leading_ws_bound(s: Seq<char>)
    ensures
        leading_ws(s) <= s.len(),
        forall|k: int| 0 <= k < leading_ws(s) ==> is_white_space(#[trigger] s[k]),
        leading_ws(s) < s.len() ==> !is_white_space(s[leading_ws(s) as int]),
    decreases s.len(),
{
    if s.len() > 0 && is_white_space(s[0]) {
        lemma_leading_ws_bound(s.drop_first());
        assert forall|k: int| 0 <= k < leading_ws(s) implies is_white_space(#[trigger] s[k]) by {
            if k > 0 {
                assert(s[k] == s.drop_first()[k - 1]);
            }
        }
    }
}

proof fn lemma_trailing_ws_bound(s: Seq<char>)
    ensures
        trailing_ws(s) <= s.len(),
        forall|k: int| s.len() - trailing_ws(s) <= k < s.len() ==> is_white_space(#[trigger] s[k]),
        trailing_ws(s) < s.len() ==> !is_white_space(s[s.len() - trailing_ws(s) - 1]),
    decreases s.len(),
{
    if s.len() > 0 && is_white_space(s.last()) {
        lemma_trailing_ws_bound(s.drop_last());
        assert forall|k: int| s.len() - trailing_ws(s) <= k < s.len() implies is_white_space(
            #[trigger] s[k],
        ) by {
            if k < s.len() - 1 {
                assert(s[k] == s.drop_last()[k]);
            }
        }
    }
}

/// If the first `n` characters are white space and the next one is not, the
/// leading white space has length `n`.
proof fn lemma_leading_ws_exact(s: Seq<char>, n: int)
    requires
        0 <= n <= s.len(),
        forall|k: int| 0 <= k < n ==> is_white_space(#[trigger] s[k]),
        n < s.len() ==> !is_white_space(s[n]),
    ensures
        leading_ws(s) == n,
    decreases n,
{
    if n > 0 {
        assert forall|k: int| 0 <= k < n - 1 implies is_white_space(#[trigger] s.drop_first()[k]) by {
            assert(s.drop_first()[k] == s[k + 1]);
        }
        if n - 1 < s.drop_first().len() {
            assert(s.drop_first()[n - 1] == s[n]);
        }
        lemma_leading_ws_exact(s.drop_first(), n - 1);
    }
}

proof fn lemma_trailing_ws_exact(s: Seq<char>, n: int)
    requires
        0 <= n <= s.len(),
        forall|k: int| s.len() - n <= k < s.len() ==> is_white_space(#[trigger] s[k]),
        n < s.len() ==> !is_white_space(s[s.len() - n - 1]),
    ensures
        trailing_ws(s) == n,
    decreases n,
{
    if n > 0 {
        let d = s.drop_last();
        assert forall|k: int| d.len() - (n - 1) <= k < d.len() implies is_white_space(
            #[trigger] d[k],
        ) by {
            assert(d[k] == s[k]);
        }
        if n - 1 < d.len() {
            assert(d[d.len() - (n - 1) - 1] == s[s.len() - n - 1]);
        }
        lemma_trailing_ws_exact(d, n - 1);
    }
}

/// Bounds `(start, end)` such that `v[start..end]` is `trim(v)`.
pub fn trim_bounds(v: &Vec<char>, from: usize, to: usize) -> (r: (usize, usize))
    requires
        from <= to <= v.len(),
    ensures
        from <= r.0 <= r.1 <= to,
        v@.subrange(r.0 as int, r.1 as int) == trim(v@.subrange(from as int, to as int)),
{
    let ghost s = v@.subrange(from as int, to as int);
    let mut i: usize = from;
    while i < to && is_white_space_exec(v[i])
        invariant
            from <= i <= to <= v.len(),
            s == v@.subrange(from as int, to as int),
            forall|k: int| 0 <= k < i - from ==> is_white_space(#[trigger] s[k]),
        decreases to - i,
    {
        i = i + 1;
    }
    proof {
        lemma_leading_ws_exact(s, i - from);
    }
    let ghost t = s.skip(leading_ws(s) as int);
    assert(t =~= v@.subrange(i as int, to as int));
    let mut j: usize = to;
    while j > i && is_white_space_exec(v[j - 1])
        invariant
            from <= i <= j <= to <= v.len(),
            t == v@.subrange(i as int, to as int),
            forall|k: int| j - i <= k < t.len() ==> is_white_space(#[trigger] t[k]),
        decreases j - i,
    {
        j = j - 1;
    }
    proof {
        lemma_trailing_ws_exact(t, to - j);
    }
    assert(v@.subrange(i as int, j as int) =~= t.take(t.len() - trailing_ws(t)));
    (i, j)
}

// ── prefixes and suffixes ──────────────────────────────────────────────────
pub open spec fn has_prefix(s: Seq<char>, p: Seq<char>) -> bool {
    p.len() <= s.len() && s.take(p.len() as int) == p
}

/// A two-character prefix is a condition on the first two characters.
pub proof fn lemma_two_char_prefix(s: Seq<char>, a: char, b: char)
    ensures
        has_prefix(s, seq![a, b]) <==> (s.len() >= 2 && s[0] == a && s[1] == b),
{
    if s.len() >= 2 && s[0] == a && s[1] == b {
        assert(s.take(2) =~= seq![a, b]);
    }
    if has_prefix(s, seq![a, b]) {
        assert(s.take(2)[0] == s[0] && s.take(2)[1] == s[1]);
    }
}

pub open spec fn has_suffix(s: Seq<char>, p: Seq<char>) -> bool {
    p.len() <= s.len() && s.skip(s.len() - p.len()) == p
}

/// Whether `v[at..]` starts with `p`.
pub fn has_prefix_at(v: &Vec<char>, at: usize, p: &Vec<char>) -> (r: bool)
    requires
        at <= v.len(),
    ensures
        r == has_prefix(v@.skip(at as int), p@),
{
    if p.len() > v.len() - at {
        return false;
    }
    let mut k: usize = 0;
    while k < p.len()
        invariant
            at <= v.len(),
            p.len() <= v.len() - at,
            0 <= k <= p.len(),
            forall|q: int| 0 <= q < k ==> v@[at + q] == p@[q],
        decreases p.len() - k,
    {
        if v[at + k] != p[k] {
            assert(v@.skip(at as int).take(p.len() as int)[k as int] != p@[k as int]);
            return false;
        }
        k = k + 1;
    }
    assert(v@.skip(at as int).take(p.len() as int) =~= p@);
    true
}

// ── decimal numbers ────────────────────────────────────────────────────────
/// The digit character for `d` in `0..10`.
pub open spec fn digit_char(d: int) -> char {
    (('0' as int) + d) as char
}

/// Decimal representation of `n`, without leading zeros (`"0"` for zero).
pub open spec fn decimal(n: nat) -> Seq<char>
    decreases n,
{
    if n < 10 {
        seq![digit_char(n as int)]
    } else {
        decimal(n / 10).push(digit_char((n % 10) as int))
    }
}

/// Decimal representation of `n` left-padded with zeros to at least `width`
/// characters.
pub open spec fn zero_padded(n: nat, width: nat) -> Seq<char> {
    let d = decimal(n);
    if d.len() < width {
        Seq::new((width - d.len()) as nat, |i: int| '0') + d
    } else {
        d
    }
}

pub fn digit_char_exec(d: u64) -> (c: char)
    requires
        d < 10,
    ensures
        c == digit_char(d as int),
{
    let b: u8 = (d as u8) + 48;
    (b as char)
}

proof fn lemma_decimal_len(n: nat)
    ensures
        decimal(n).len() >= 1,
        n < 10 ==> decimal(n).len() == 1,
        10 <= n < 100 ==> decimal(n).len() == 2,
    decreases n,
{
    if n >= 10 {
        lemma_decimal_len(n / 10);
    }
}

/// Appends `decimal(n)` to `s`.
pub fn push_decimal(s: &mut String, n: u64)
    ensures
        final(s)@ == old(s)@ + decimal(n as nat),
    decreases n,
{
    if n < 10 {
        push_char(s, digit_char_exec(n));
        assert(old(s)@.push(digit_char(n as int)) =~= old(s)@ + seq![digit_char(n as int)]);
    } else {
        push_decimal(s, n / 10);
        push_char(s, digit_char_exec(n % 10));
        assert(old(s)@ + decimal((n / 10) as nat) + seq![digit_char((n % 10) as int)] =~= old(s)@ + decimal(
            n as nat,
        ));
    }
}

/// Appends `zero_padded(n, width)` to `s`.
pub fn push_zero_padded(s: &mut String, n: u64, width: u64)
    ensures
        final(s)@ == old(s)@ + zero_padded(n as nat, width as nat),
{
    let ghost d = decimal(n as nat);
    let len: u64 = decimal_len(n);
    if len < width {
        let mut k: u64 = 0;
        while k < width - len
            invariant
                len < width,
                k <= width - len,
                s@ == old(s)@ + Seq::new(k as nat, |i: int| '0'),
            decreases width - len - k,
        {
            push_char(s, '0');
            k = k + 1;
            assert(Seq::new(k as nat, |i: int| '0') =~= Seq::new((k - 1) as nat, |i: int| '0').push(
                '0',
            ));
        }
        push_decimal(s, n);
        assert(old(s)@ + Seq::new((width - len) as nat, |i: int| '0') + d =~= old(s)@ + (Seq::new(
            (width - len) as nat,
            |i: int| '0',
        ) + d));
    } else {
        push_decimal(s, n);
    }
}

/// Number of decimal digits of `n`.
pub fn decimal_len(n: u64) -> (r: u64)
    ensures
        r as nat == decimal(n as nat).len(),
        r <= 20,
    decreases n,
{
    proof {
        lemma_decimal_len(n as nat);
    }
    if n < 10 {
        1
    } else {
        let r = decimal_len(n / 10);
        proof {
            assert(decimal(n as nat).len() == decimal((n / 10) as nat).len() + 1);
            lemma_decimal_len_bound(n as nat);
        }
        r + 1
    }
}

proof fn lemma_decimal_len_bound(n: nat)
    requires
        n <= u64::MAX,
    ensures
        decimal(n).len() <= 20,
    decreases n,
{
    if n >= 10 {
        lemma_decimal_len_bound(n / 10);
        if n / 10 < 10 {
            lemma_decimal_len(n / 10);
        } else {
            lemma_decimal_len_small(n);
        }
    }
}

proof fn lemma_decimal_len_small(n: nat)
    requires
        n <= u64::MAX,
    ensures
        decimal(n).len() <= 20,
    decreases n,
{
    reveal_with_fuel(pow10, 21);
    lemma_decimal_len_log(n, 20);
}

/// `decimal(n)` has at most `k` digits when `n < 10^k`.
pub proof fn lemma_decimal_len_log(n: nat, k: nat)
    requires
        k >= 1,
        n < pow10(k),
    ensures
        decimal(n).len() <= k,
    decreases n,
{
    if n >= 10 {
        assert(k >= 2) by {
            if k == 1 {
                assert(pow10(1) == 10 * pow10(0));
            }
        }
        assert(pow10(k) == 10 * pow10((k - 1) as nat));
        assert(n / 10 < pow10((k - 1) as nat));
        lemma_decimal_len_log(n / 10, (k - 1) as nat);
    }
}

pub open spec fn pow10(k: nat) -> nat
    decreases k,
{
    if k == 0 {
        1
    } else {
        10 * pow10((k - 1) as nat)
    }
}

pub open spec fn all_digits(s: Seq<char>) -> bool {
    forall|i: int| 0 <= i < s.len() ==> is_ascii_digit(#[trigger] s[i])
}

/// Value of a string of decimal digits.
pub open spec fn digits_value(s: Seq<char>) -> int
    decreases s.len(),
{
    if s.len() == 0 {
        0
    } else {
        digits_value(s.drop_last()) * 10 + digit_value(s.last())
    }
}


pub proof fn lemma_digit_char(k: int)
    requires
        0 <= k < 10,
    ensures
        is_ascii_digit(digit_char(k)),
        digit_value(digit_char(k)) == k,
{
}

/// `decimal(n)` is made of digits and reads back as `n`.
pub proof fn lemma_decimal_value(n: nat)
    ensures
        all_digits(decimal(n)),
        digits_value(decimal(n)) == n,
    decreases n,
{
    if n < 10 {
        lemma_digit_char(n as int);
        assert(decimal(n).drop_last() =~= Seq::<char>::empty());
        assert(digits_value(decimal(n)) == digits_value(decimal(n).drop_last()) * 10 + digit_value(
            decimal(n).last(),
        ));
    } else {
        lemma_decimal_value(n / 10);
        lemma_digit_char((n % 10) as int);
        let d = decimal(n);
        assert(d.drop_last() =~= decimal(n / 10));
        assert(d.last() == digit_char((n % 10) as int));
        assert(digits_value(d) == digits_value(decimal(n / 10)) * 10 + digit_value(d.last()));
        assert((n / 10) * 10 + n % 10 == n);
        assert forall|i: int| 0 <= i < d.len() implies is_ascii_digit(#[trigger] d[i]) by {
            if i < d.len() - 1 {
                assert(d[i] == decimal(n / 10)[i]);
            }
        }
    }
}

proof fn lemma_zeros_value(z: Seq<char>)
    requires
        forall|i: int| 0 <= i < z.len() ==> #[trigger] z[i] == '0',
    ensures
        digits_value(z) == 0,
        all_digits(z),
    decreases z.len(),
{
    if z.len() > 0 {
        assert forall|i: int| 0 <= i < z.drop_last().len() implies #[trigger] z.drop_last()[i]
            == '0' by {
            assert(z.drop_last()[i] == z[i]);
        }
        lemma_zeros_value(z.drop_last());
    }
}

proof fn lemma_leading_zeros_value(z: Seq<char>, d: Seq<char>)
    requires
        forall|i: int| 0 <= i < z.len() ==> #[trigger] z[i] == '0',
        all_digits(d),
    ensures
        digits_value(z + d) == digits_value(d),
        all_digits(z + d),
    decreases d.len(),
{
    if d.len() == 0 {
        assert(z + d =~= z);
        lemma_zeros_value(z);
    } else {
        assert(all_digits(d.drop_last())) by {
            assert forall|i: int| 0 <= i < d.drop_last().len() implies is_ascii_digit(
                #[trigger] d.drop_last()[i],
            ) by {
                assert(d.drop_last()[i] == d[i]);
            }
        }
        lemma_leading_zeros_value(z, d.drop_last());
        assert((z + d).drop_last() =~= z + d.drop_last());
        assert((z + d).last() == d.last());
        assert forall|i: int| 0 <= i < (z + d).len() implies is_ascii_digit(#[trigger] (z + d)[i]) by {
            if i < z.len() {
                assert((z + d)[i] == z[i]);
            } else {
                assert((z + d)[i] == d[i - z.len()]);
            }
        }
    }
}

/// `zero_padded(n, w)` is made of digits, reads back as `n`, and has `w`
/// characters when `n` has at most `w` digits.
pub proof fn lemma_zero_padded_value(n: nat, w: nat)
    ensures
        all_digits(zero_padded(n, w)),
        digits_value(zero_padded(n, w)) == n,
        decimal(n).len() <= w ==> zero_padded(n, w).len() == w,
{
    lemma_decimal_value(n);
    let d = decimal(n);
    if d.len() < w {
        let z = Seq::new((w - d.len()) as nat, |i: int| '0');
        lemma_leading_zeros_value(z, d);
    }
}

/// `n` has exactly `k` digits when `10^(k-1) <= n < 10^k`.
pub proof fn lemma_decimal_len_exact(n: nat, k: nat)
    requires
        k >= 1,
        pow10((k - 1) as nat) <= n < pow10(k),
    ensures
        decimal(n).len() == k,
    decreases k,
{
    lemma_decimal_len_log(n, k);
    if k >= 2 {
        assert(pow10((k - 1) as nat) == 10 * pow10((k - 2) as nat));
        assert(pow10(k) == 10 * pow10((k - 1) as nat));
        assert(pow10((k - 2) as nat) >= 1) by {
            lemma_pow10_positive((k - 2) as nat);
        }
        assert(n >= 10);
        assert(n / 10 >= pow10((k - 2) as nat));
        assert(n / 10 < pow10((k - 1) as nat));
        lemma_decimal_len_exact(n / 10, (k - 1) as nat);
    }
}

pub proof fn lemma_pow10_positive(k: nat)
    ensures
        pow10(k) >= 1,
    decreases k,
{
    if k > 0 {
        lemma_pow10_positive((k - 1) as nat);
    }
}

/// A string of `k` digits reads as less than `10^k`.
pub proof fn lemma_digits_value_lt(s: Seq<char>)
    requires
        all_digits(s),
    ensures
        0 <= digits_value(s) < pow10(s.len()),
    decreases s.len(),
{
    if s.len() > 0 {
        assert(all_digits(s.drop_last())) by {
            assert forall|i: int| 0 <= i < s.drop_last().len() implies is_ascii_digit(
                #[trigger] s.drop_last()[i],
            ) by {
                assert(s.drop_last()[i] == s[i]);
            }
        }
        lemma_digits_value_lt(s.drop_last());
        assert(is_ascii_digit(s[s.len() - 1]));
        assert(pow10(s.len()) == 10 * pow10((s.len() - 1) as nat));
    }
}

// ── lexicographic order ────────────────────────────────────────────────────
/// Lexicographic `a < b` by code point, which is the order of `str` in Rust
/// (UTF-8 preserves code-point order byte by byte).
pub open spec fn seq_lt(a: Seq<char>, b: Seq<char>) -> bool
    decreases a.len(),
{
    if a.len() == 0 {
        b.len() > 0
    } else if b.len() == 0 {
        false
    } else if a[0] < b[0] {
        true
    } else if a[0] > b[0] {
        false
    } else {
        seq_lt(a.drop_first(), b.drop_first())
    }
}

/// Lexicographic comparison of `a` and `b`.
pub fn chars_lt(a: &Vec<char>, b: &Vec<char>) -> (r: bool)
    ensures
        r == seq_lt(a@, b@),
{
    let mut i: usize = 0;
    assert(a@.skip(0) =~= a@);
    assert(b@.skip(0) =~= b@);
    while i < a.len() && i < b.len() && a[i] == b[i]
        invariant
            0 <= i <= a.len(),
            i <= b.len(),
            seq_lt(a@, b@) == seq_lt(a@.skip(i as int), b@.skip(i as int)),
        decreases a.len() - i,
    {
        proof {
            let sa = a@.skip(i as int);
            let sb = b@.skip(i as int);
            assert(sa.drop_first() =~= a@.skip(i + 1));
            assert(sb.drop_first() =~= b@.skip(i + 1));
        }
        i = i + 1;
    }
    let ghost sa = a@.skip(i as int);
    let ghost sb = b@.skip(i as int);
    if i == a.len() {
        assert(sa.len() == 0);
        i < b.len()
    } else if i == b.len() {
        assert(sb.len() == 0);
        false
    } else {
        assert(sa[0] == a@[i as int] && sb[0] == b@[i as int]);
        a[i] < b[i]
    }
}

/// `a < b` for two strings, in the order of `str`.
pub fn str_lt(a: &str, b: &str) -> (r: bool)
    ensures
        r == seq_lt(a@, b@),
{
    let va = chars_of(a);
    let vb = chars_of(b);
    chars_lt(&va, &vb)
}

/// Equality of the text of two strings.
pub fn chars_eq(a: &Vec<char>, b: &Vec<char>) -> (r: bool)
    ensures
        r == (a@ == b@),
{
    if a.len() != b.len() {
        return false;
    }
    let mut i: usize = 0;
    while i < a.len()
        invariant
            a.len() == b.len(),
            0 <= i <= a.len(),
            forall|k: int| 0 <= k < i ==> a@[k] == b@[k],
        decreases a.len() - i,
    {
        if a[i] != b[i] {
            return false;
        }
        i = i + 1;
    }
    assert(a@ =~= b@);
    true
}

/// Decimal representation of a signed integer, with `-` before a negative
/// one (how `{}` formats an integer).
pub open spec fn signed_decimal(n: int) -> Seq<char> {
    if n < 0 {
        seq!['-'] + decimal((-n) as nat)
    } else {
        decimal(n as nat)
    }
}

/// Appends `signed_decimal(n)` to `s`.
pub fn push_signed(s: &mut String, n: i64)
    ensures
        final(s)@ == old(s)@ + signed_decimal(n as int),
{
    if n < 0 {
        push_char(s, '-');
        let m: u64 = (0i128 - (n as i128)) as u64;
        push_decimal(s, m);
        assert(old(s)@.push('-') + decimal(m as nat) =~= old(s)@ + (seq!['-'] + decimal(m as nat)));
    } else {
        push_decimal(s, n as u64);
    }
}

/// `needle` occurs in `hay` at position `i`.
pub open spec fn occurs_at(hay: Seq<char>, needle: Seq<char>, i: int) -> bool {
    0 <= i && i + needle.len() <= hay.len() && hay.subrange(i, i + needle.len()) == needle
}

/// `needle` occurs somewhere in `hay` (`str::contains`).
pub open spec fn contains_text(hay: Seq<char>, needle: Seq<char>) -> bool {
    exists|i: int| occurs_at(hay, needle, i)
}

/// Whether `needle` occurs in `hay`.
pub fn str_contains(hay: &str, needle: &str) -> (r: bool)
    ensures
        r == contains_text(hay@, needle@),
{
    let h = chars_of(hay);
    let n = chars_of(needle);
    if n.len() > h.len() {
        proof {
            assert forall|i: int| !occurs_at(h@, n@, i) by {}
        }
        return false;
    }
    let last = h.len() - n.len();
    let mut i: usize = 0;
    loop
        invariant
            n.len() <= h.len(),
            last == h.len() - n.len(),
            0 <= i <= last,
            h@ == hay@,
            n@ == needle@,
            forall|j: int| 0 <= j < i ==> !#[trigger] occurs_at(h@, n@, j),
        ensures
            forall|j: int| 0 <= j <= last ==> !#[trigger] occurs_at(h@, n@, j),
        decreases last - i,
    {
        proof {
            assert(h@.skip(i as int).take(n@.len() as int) =~= h@.subrange(i as int, i + n@.len()));
        }
        if has_prefix_at(&h, i, &n) {
            assert(occurs_at(h@, n@, i as int));
            return true;
        }
        if i == last {
            break;
        }
        i = i + 1;
    }
    proof {
        assert forall|j: int| !occurs_at(h@, n@, j) by {
            if 0 <= j && j + n@.len() <= h@.len() {
                assert(j <= last);
            }
        }
    }
    false
}

// ── laws of the text order ─────────────────────────────────────────────────
/// `seq_lt` is irreflexive and asymmetric.
pub proof fn lemma_seq_lt_asym(a: Seq<char>, b: Seq<char>)
    ensures
        !seq_lt(a, a),
        seq_lt(a, b) ==> !seq_lt(b, a),
    decreases a.len(),
{
    if a.len() > 0 {
        lemma_seq_lt_asym(a.drop_first(), a.drop_first());
        if b.len() > 0 {
            lemma_seq_lt_asym(a.drop_first(), b.drop_first());
        }
    }
}

/// `seq_lt` is total: two texts are equal or one comes first.
pub proof fn lemma_seq_lt_total(a: Seq<char>, b: Seq<char>)
    ensures
        a == b || seq_lt(a, b) || seq_lt(b, a),
    decreases a.len(),
{
    if a.len() > 0 && b.len() > 0 && a[0] == b[0] {
        lemma_seq_lt_total(a.drop_first(), b.drop_first());
        if a.drop_first() == b.drop_first() {
            assert(a =~= seq![a[0]] + a.drop_first());
            assert(b =~= seq![b[0]] + b.drop_first());
        }
    } else if a.len() == 0 && b.len() == 0 {
        assert(a =~= b);
    }
}

/// `seq_lt` is transitive.
pub proof fn lemma_seq_lt_trans(a: Seq<char>, b: Seq<char>, c: Seq<char>)
    requires
        seq_lt(a, b),
        seq_lt(b, c),
    ensures
        seq_lt(a, c),
    decreases a.len(),
{
    if a.len() > 0 && b.len() > 0 && c.len() > 0 && a[0] == b[0] && b[0] == c[0] {
        lemma_seq_lt_trans(a.drop_first(), b.drop_first(), c.drop_first());
    }
}

/// `a < b` and `b <= c` give `a < c`.
pub proof fn lemma_seq_lt_le(a: Seq<char>, b: Seq<char>, c: Seq<char>)
    requires
        seq_lt(a, b),
        !seq_lt(c, b),
    ensures
        seq_lt(a, c),
{
    lemma_seq_lt_total(b, c);
    if b != c {
        lemma_seq_lt_trans(a, b, c);
    }
}

/// `a <= b` and `b <= c` give `a <= c`.
pub proof fn lemma_seq_le_trans(a: Seq<char>, b: Seq<char>, c: Seq<char>)
    requires
        !seq_lt(b, a),
        !seq_lt(c, b),
    ensures
        !seq_lt(c, a),
{
    if seq_lt(c, a) {
        lemma_seq_lt_total(a, b);
        if a == b {
        } else {
            lemma_seq_lt_le(c, a, b);
            lemma_seq_lt_asym(c, b);
        }
    }
}

// ── stable sort by text ────────────────────────────────────────────────────
/// `order` lists each of `0..n` once.
pub open spec fn is_index_permutation(order: Seq<usize>, n: nat) -> bool {
    &&& order.len() == n
    &&& forall|i: int| 0 <= i < order.len() ==> #[trigger] order[i] < n
    &&& forall|i: int, j: int|
        0 <= i < j < order.len() ==> #[trigger] order[i] != #[trigger] order[j]
    &&& forall|v: usize| v < n ==> #[trigger] lists_index(order, v)
}

/// `v` occurs in `order`.
pub open spec fn lists_index(order: Seq<usize>, v: usize) -> bool {
    exists|i: int| 0 <= i < order.len() && order[i] == v
}

/// `order` visits `keys` in ascending text order, equal texts in their
/// order of `keys` (what a stable sort does).
pub open spec fn stably_sorted(keys: Seq<Seq<char>>, order: Seq<usize>) -> bool {
    forall|i: int, j: int|
        0 <= i < j < order.len() ==> !seq_lt(
            keys[#[trigger] order[j] as int],
            keys[#[trigger] order[i] as int],
        ) && (keys[order[i] as int] == keys[order[j] as int] ==> order[i] < order[j])
}

/// The positions of `keys` in the order of a stable sort by text.
pub fn stable_text_order(keys: &Vec<String>) -> (order: Vec<usize>)
    ensures
        is_index_permutation(order@, keys.len() as nat),
        stably_sorted(texts_view(keys@), order@),
{
    let ghost kv = texts_view(keys@);
    let mut cv: Vec<Vec<char>> = Vec::new();
    let mut c: usize = 0;
    while c < keys.len()
        invariant
            0 <= c <= keys.len(),
            kv == texts_view(keys@),
            cv.len() == c,
            forall|q: int| 0 <= q < c ==> #[trigger] cv@[q]@ == kv[q],
        decreases keys.len() - c,
    {
        cv.push(chars_of(keys[c].as_str()));
        c = c + 1;
    }
    let mut order: Vec<usize> = Vec::new();
    let mut k: usize = 0;
    while k < keys.len()
        invariant
            0 <= k <= keys.len(),
            kv == texts_view(keys@),
            cv.len() == keys.len(),
            forall|q: int| 0 <= q < keys.len() ==> #[trigger] cv@[q]@ == kv[q],
            is_index_permutation(order@, k as nat),
            stably_sorted(kv, order@),
        decreases keys.len() - k,
    {
        let ghost o = order@;
        let ghost x = kv[k as int];
        // Smallest position whose text is greater than the new one.
        let mut lo: usize = 0;
        let mut hi: usize = order.len();
        while lo < hi
            invariant
                0 <= lo <= hi <= order.len(),
                o == order@,
                x == kv[k as int],
                k < keys.len(),
                cv.len() == keys.len(),
                forall|q: int| 0 <= q < keys.len() ==> #[trigger] cv@[q]@ == kv[q],
                is_index_permutation(o, k as nat),
                stably_sorted(kv, o),
                forall|q: int| 0 <= q < lo ==> !seq_lt(x, #[trigger] kv[o[q] as int]),
                forall|q: int| hi <= q < o.len() ==> seq_lt(x, #[trigger] kv[o[q] as int]),
            decreases hi - lo,
        {
            let mid = lo + (hi - lo) / 2;
            let om = order[mid];
            if chars_lt(&cv[k], &cv[om]) {
                proof {
                    assert forall|q: int| mid <= q < o.len() implies seq_lt(
                        x,
                        #[trigger] kv[o[q] as int],
                    ) by {
                        if q > mid {
                            lemma_seq_lt_le(x, kv[o[mid as int] as int], kv[o[q] as int]);
                        }
                    }
                }
                hi = mid;
            } else {
                proof {
                    assert forall|q: int| 0 <= q < mid + 1 implies !seq_lt(
                        x,
                        #[trigger] kv[o[q] as int],
                    ) by {
                        if q < mid && seq_lt(x, kv[o[q] as int]) {
                            lemma_seq_lt_le(x, kv[o[q] as int], kv[o[mid as int] as int]);
                        }
                    }
                }
                lo = mid + 1;
            }
        }
        order.insert(lo, k);
        proof {
            let n = order@;
            assert(n =~= o.insert(lo as int, k));
            assert forall|i: int| 0 <= i < n.len() implies #[trigger] n[i] < k + 1 by {
                if i < lo {
                    assert(n[i] == o[i]);
                } else if i > lo {
                    assert(n[i] == o[i - 1]);
                }
            }
            assert forall|i: int, j: int| 0 <= i < j < n.len() implies #[trigger] n[i] != #[trigger] n[j] by {
                if i < lo && j < lo {
                    assert(n[i] == o[i] && n[j] == o[j]);
                } else if i < lo && j == lo {
                    assert(n[i] == o[i]);
                } else if i < lo && j > lo {
                    assert(n[i] == o[i] && n[j] == o[j - 1]);
                } else if i == lo {
                    assert(n[j] == o[j - 1]);
                } else {
                    assert(n[i] == o[i - 1] && n[j] == o[j - 1]);
                }
            }
            assert forall|v: usize| v < k + 1 implies #[trigger] lists_index(n, v) by {
                if v == k {
                    assert(n[lo as int] == v);
                } else {
                    assert(lists_index(o, v));
                    let i0 = choose|i: int| 0 <= i < o.len() && o[i] == v;
                    if i0 < lo {
                        assert(n[i0] == v);
                    } else {
                        assert(n[i0 + 1] == v);
                    }
                }
            }
            assert forall|i: int, j: int| 0 <= i < j < n.len() implies !seq_lt(
                kv[#[trigger] n[j] as int],
                kv[#[trigger] n[i] as int],
            ) && (kv[n[i] as int] == kv[n[j] as int] ==> n[i] < n[j]) by {
                if i < lo && j < lo {
                    assert(n[i] == o[i] && n[j] == o[j]);
                } else if i < lo && j == lo {
                    assert(n[i] == o[i]);
                    assert(!seq_lt(x, kv[o[i] as int]));
                } else if i < lo && j > lo {
                    assert(n[i] == o[i] && n[j] == o[j - 1]);
                } else if i == lo {
                    assert(n[j] == o[j - 1]);
                    assert(seq_lt(x, kv[o[j - 1] as int]));
                    lemma_seq_lt_asym(x, kv[o[j - 1] as int]);
                    lemma_seq_lt_asym(x, x);
                } else {
                    assert(n[i] == o[i - 1] && n[j] == o[j - 1]);
                }
            }
        }
        k = k + 1;
    }
    order
}

} // verus!
