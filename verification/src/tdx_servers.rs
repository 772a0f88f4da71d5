//! The `[HQHOST]` section of a TDX client's `connect.cfg`, and the order in
//! which candidate quote servers are tried.
use vstd::prelude::*;
use crate::text::{
    all_digits, ascii_lower, ascii_lower_exec, chars_of, decimal, digit_value, digits_value,
    has_prefix, has_prefix_at, is_ascii_digit, push_chars, push_decimal, push_str, string_of, trim,
    trim_bounds,
};
use crate::tdx::paths::{find_char, index_of, lemma_index_of};

verus! {

/// A quote server listed in `connect.cfg`: its host name, its IP address as
/// written, and its port.
#[derive(Clone, Debug)]
pub struct HqHostEntry {
    pub name: String,
    pub ip: String,
    pub port: u16,
}

impl HqHostEntry {
    /// `"{ip}:{port}"`.
    pub fn addr_text(&self) -> (r: String)
        ensures
            r@ == self.ip@ + seq![':'] + decimal(self.port as nat),
    {
        let mut r = String::new();
        push_str(&mut r, self.ip.as_str());
        crate::text::push_char(&mut r, ':');
        push_decimal(&mut r, self.port as u64);
        r
    }
}

/// What has been read of the file so far.
pub struct HqScan {
    pub in_hq: bool,
    /// `(number, ip)` of each `IPAddress<number>=ip` line, in order.
    pub ips: Seq<(Seq<char>, Seq<char>)>,
    /// `(number, port)` of each `Port<number>=port` line with a valid port.
    pub ports: Seq<(Seq<char>, u16)>,
    /// `(number, name)` of each `HostName<number>=name` line.
    pub names: Seq<(Seq<char>, Seq<char>)>,
}

pub open spec fn hq_header() -> Seq<char> {
    seq!['[', 'h', 'q', 'h', 'o', 's', 't', ']']
}

/// `a` and `b` are equal ignoring ASCII case (`eq_ignore_ascii_case`).
pub open spec fn eq_ignore_ascii_case(a: Seq<char>, b: Seq<char>) -> bool {
    a.len() == b.len() && forall|i: int| 0 <= i < a.len() ==> ascii_lower(#[trigger] a[i])
        == ascii_lower(b[i])
}

/// `(key, value)` of a line `key=value`, both trimmed; `None` without `=` or
/// with an empty key.
pub open spec fn key_value(t: Seq<char>) -> Option<(Seq<char>, Seq<char>)> {
    let k = index_of(t, '=');
    if k < 0 {
        None
    } else {
        let key = trim(t.take(k));
        let value = trim(t.skip(k + 1));
        if key.len() == 0 {
            None
        } else {
            Some((key, value))
        }
    }
}

/// The digits after `prefix` in `key` (`IPAddress01` gives `01`).
pub open spec fn spec_extract_number(key: Seq<char>, prefix: Seq<char>) -> Option<Seq<char>> {
    if has_prefix(key, prefix) {
        let suffix = key.skip(prefix.len() as int);
        if suffix.len() > 0 && all_digits(suffix) {
            Some(suffix)
        } else {
            None
        }
    } else {
        None
    }
}

/// A key yields the number `n` exactly when it is `prefix` followed by `n`,
/// and `n` is one or more ASCII digits.
pub proof fn law_extract_number_splits_key(key: Seq<char>, prefix: Seq<char>, n: Seq<char>)
    ensures
        spec_extract_number(key, prefix) == Some(n) <==> (key == prefix + n && n.len() > 0
            && all_digits(n)),
{
    if key == prefix + n {
        assert(key.take(prefix.len() as int) =~= prefix);
        assert(key.skip(prefix.len() as int) =~= n);
    }
    if spec_extract_number(key, prefix) == Some(n) {
        assert(key =~= key.take(prefix.len() as int) + key.skip(prefix.len() as int));
    }
}

/// One or more ASCII digits whose value fits in 16 bits.
pub open spec fn parse_u16_digits(digits: Seq<char>) -> Option<u16> {
    if digits.len() > 0 && all_digits(digits) && digits_value(digits) <= 65535 {
        Some(digits_value(digits) as u16)
    } else {
        None
    }
}

/// `u16::from_str`: an optional `+`, then one or more ASCII digits whose
/// value fits in 16 bits.
pub open spec fn parse_u16(s: Seq<char>) -> Option<u16> {
    if s.len() > 0 && s[0] == '+' {
        parse_u16_digits(s.drop_first())
    } else {
        parse_u16_digits(s)
    }
}

pub open spec fn ip_prefix() -> Seq<char> {
    seq!['I', 'P', 'A', 'd', 'd', 'r', 'e', 's', 's']
}

pub open spec fn port_prefix() -> Seq<char> {
    seq!['P', 'o', 'r', 't']
}

pub open spec fn name_prefix() -> Seq<char> {
    seq!['H', 'o', 's', 't', 'N', 'a', 'm', 'e']
}

/// The effect of one line.
pub open spec fn process_line(st: HqScan, line: Seq<char>) -> HqScan {
    let t = trim(line);
    if t.len() == 0 {
        st
    } else if t[0] == '[' && t.last() == ']' {
        HqScan { in_hq: eq_ignore_ascii_case(t, hq_header()), ..st }
    } else if !st.in_hq {
        st
    } else {
        match key_value(t) {
            Some((key, value)) => match spec_extract_number(key, ip_prefix()) {
                Some(n) => HqScan { ips: st.ips.push((n, value)), ..st },
                None => match spec_extract_number(key, port_prefix()) {
                    Some(n) => match parse_u16(value) {
                        Some(p) => HqScan { ports: st.ports.push((n, p)), ..st },
                        None => st,
                    },
                    None => match spec_extract_number(key, name_prefix()) {
                        Some(n) => HqScan { names: st.names.push((n, value)), ..st },
                        None => st,
                    },
                },
            },
            None => st,
        }
    }
}

/// The state after reading the lines of `s` (separated by `\n`).
pub open spec fn scan_lines(st: HqScan, s: Seq<char>) -> HqScan
    decreases s.len(),
{
    let k = index_of(s, '\n');
    if k < 0 {
        process_line(st, s)
    } else {
        proof {
            lemma_index_of(s, '\n');
        }
        scan_lines(process_line(st, s.take(k)), s.skip(k + 1))
    }
}

pub open spec fn initial_scan() -> HqScan {
    HqScan { in_hq: false, ips: Seq::empty(), ports: Seq::empty(), names: Seq::empty() }
}

/// The port of the first `Port<n>` line, or 7709.
pub open spec fn port_for(ports: Seq<(Seq<char>, u16)>, n: Seq<char>) -> u16
    decreases ports.len(),
{
    if ports.len() == 0 {
        7709
    } else if ports[0].0 == n {
        ports[0].1
    } else {
        port_for(ports.drop_first(), n)
    }
}

/// The name of the first `HostName<n>` line, or `TDX-<n>`.
pub open spec fn name_for(names: Seq<(Seq<char>, Seq<char>)>, n: Seq<char>) -> Seq<char>
    decreases names.len(),
{
    if names.len() == 0 {
        seq!['T', 'D', 'X', '-'] + n
    } else if names[0].0 == n {
        names[0].1
    } else {
        name_for(names.drop_first(), n)
    }
}

/// The servers of `content`: one per `IPAddress<n>` line of the `[HQHOST]`
/// section, in order, with the port and name given for the same `<n>`.
pub open spec fn hq_entries(content: Seq<char>) -> Seq<(Seq<char>, Seq<char>, u16)> {
    let st = scan_lines(initial_scan(), content);
    Seq::new(
        st.ips.len(),
        |i: int| (name_for(st.names, st.ips[i].0), st.ips[i].1, port_for(st.ports, st.ips[i].0)),
    )
}

pub open spec fn entries_view(v: Seq<HqHostEntry>) -> Seq<(Seq<char>, Seq<char>, u16)> {
    v.map_values(|e: HqHostEntry| (e.name@, e.ip@, e.port))
}

// ── executable pieces ──────────────────────────────────────────────────────
/// The digits after `prefix` in `v[from..to]`, as bounds into `v`.
fn extract_number_exec(v: &Vec<char>, from: usize, to: usize, prefix: &Vec<char>) -> (r: Option<
    (usize, usize),
>)
    requires
        from <= to <= v.len(),
    ensures
        match spec_extract_number(v@.subrange(from as int, to as int), prefix@) {
            Some(n) => r matches Some((a, b)) && from <= a <= b <= to && v@.subrange(
                a as int,
                b as int,
            ) == n,
            None => r is None,
        },
{
    let ghost key = v@.subrange(from as int, to as int);
    if to - from < prefix.len() {
        return None;
    }
    let ok = has_prefix_at(v, from, prefix);
    proof {
        assert(v@.skip(from as int).take(prefix.len() as int) =~= key.take(prefix.len() as int));
    }
    if !ok {
        return None;
    }
    let a = from + prefix.len();
    if a == to {
        return None;
    }
    let mut i = a;
    while i < to
        invariant
            from <= a <= i <= to <= v.len(),
            a == from + prefix.len(),
            key == v@.subrange(from as int, to as int),
            forall|q: int| a <= q < i ==> is_ascii_digit(#[trigger] v@[q]),
        decreases to - i,
    {
        if !('0' <= v[i] && v[i] <= '9') {
            proof {
                assert(key.skip(prefix.len() as int)[i - a] == v@[i as int]);
            }
            return None;
        }
        i = i + 1;
    }
    proof {
        assert(key.skip(prefix.len() as int) =~= v@.subrange(a as int, to as int));
    }
    Some((a, to))
}

proof fn lemma_digits_value_bound(s: Seq<char>)
    requires
        all_digits(s),
    ensures
        digits_value(s) >= 0,
    decreases s.len(),
{
    if s.len() > 0 {
        assert(all_digits(s.drop_last())) by {
            assert forall|i: int| 0 <= i < s.drop_last().len() implies is_ascii_digit(
                #[trigger] s.drop_last()[i],
            ) by {
                assert(s.drop_last()[i] == s[i]);
            }
        }
        lemma_digits_value_bound(s.drop_last());
    }
}

proof fn lemma_digits_value_monotone(s: Seq<char>, i: int)
    requires
        all_digits(s),
        0 <= i <= s.len(),
    ensures
        digits_value(s.take(i)) <= digits_value(s),
    decreases s.len() - i,
{
    if i < s.len() {
        lemma_digits_value_monotone(s, i + 1);
        assert(s.take(i + 1).drop_last() =~= s.take(i));
        assert(all_digits(s.take(i))) by {
            assert forall|q: int| 0 <= q < s.take(i).len() implies is_ascii_digit(
                #[trigger] s.take(i)[q],
            ) by {
                assert(s.take(i)[q] == s[q]);
            }
        }
        lemma_digits_value_bound(s.take(i));
    } else {
        assert(s.take(i) =~= s);
    }
}

/// `u16::from_str` on `v[from..to]`.
fn parse_u16_exec(v: &Vec<char>, from: usize, to: usize) -> (r: Option<u16>)
    requires
        from <= to <= v.len(),
    ensures
        r == parse_u16(v@.subrange(from as int, to as int)),
{
    let ghost s = v@.subrange(from as int, to as int);
    let mut a = from;
    if a < to && v[a] == '+' {
        a = a + 1;
    }
    let ghost digits = v@.subrange(a as int, to as int);
    proof {
        if from < to && v@[from as int] == '+' {
            assert(s.drop_first() =~= digits);
        } else {
            assert(s =~= digits);
        }
    }
    if a == to {
        return None;
    }
    let mut value: u32 = 0;
    let mut i = a;
    assert(digits.take(0) =~= Seq::<char>::empty());
    while i < to
        invariant
            from <= a < to <= v.len(),
            a <= i <= to,
            digits == v@.subrange(a as int, to as int),
            s == v@.subrange(from as int, to as int),
            parse_u16(s) == parse_u16_digits(digits),
            all_digits(digits.take(i - a)),
            value == digits_value(digits.take(i - a)),
            value <= 65535,
        decreases to - i,
    {
        let c = v[i];
        if !('0' <= c && c <= '9') {
            proof {
                assert(digits[i - a] == c);
            }
            return None;
        }
        let dv = (c as u32) - ('0' as u32);
        let next = value * 10 + dv;
        proof {
            assert(dv == digit_value(c));
            assert(next == digits_value(digits.take(i - a)) * 10 + digit_value(c));
            assert(digits.take(i + 1 - a).drop_last() =~= digits.take(i - a));
            assert(digits.take(i + 1 - a).last() == c);
            assert(all_digits(digits.take(i + 1 - a))) by {
                assert forall|q: int| 0 <= q < digits.take(i + 1 - a).len() implies is_ascii_digit(
                    #[trigger] digits.take(i + 1 - a)[q],
                ) by {
                    if q < i - a {
                        assert(digits.take(i + 1 - a)[q] == digits.take(i - a)[q]);
                    }
                }
            }
        }
        if next > 65535 {
            // The value only grows with more digits, or a later non-digit
            // makes the text invalid anyway.
            proof {
                if all_digits(digits) {
                    lemma_digits_value_monotone(digits, i + 1 - a);
                }
            }
            return None;
        }
        value = next;
        i = i + 1;
    }
    proof {
        assert(digits.take(to - a) =~= digits);
    }
    Some(value as u16)
}

/// `key=value` of `v[from..to]`: bounds of the trimmed key and value.
fn key_value_exec(v: &Vec<char>, from: usize, to: usize) -> (r: Option<
    ((usize, usize), (usize, usize)),
>)
    requires
        from <= to <= v.len(),
    ensures
        match key_value(v@.subrange(from as int, to as int)) {
            Some((key, value)) => r matches Some(((ka, kb), (va, vb))) && from <= ka <= kb <= to
                && from <= va <= vb <= to && v@.subrange(ka as int, kb as int) == key && v@.subrange(
                va as int,
                vb as int,
            ) == value,
            None => r is None,
        },
{
    let ghost t = v@.subrange(from as int, to as int);
    let k = find_char(v, from, to, '=');
    if k == to - from {
        return None;
    }
    let eq = from + k;
    let (ka, kb) = trim_bounds(v, from, eq);
    let (va, vb) = trim_bounds(v, eq + 1, to);
    proof {
        assert(v@.subrange(from as int, eq as int) =~= t.take(k as int));
        assert(v@.subrange(eq + 1, to as int) =~= t.skip(k + 1));
    }
    if ka == kb {
        return None;
    }
    Some(((ka, kb), (va, vb)))
}

/// `v[from..to]` equals `"[HQHOST]"` ignoring ASCII case.
fn is_hq_header(v: &Vec<char>, from: usize, to: usize) -> (r: bool)
    requires
        from <= to <= v.len(),
    ensures
        r == eq_ignore_ascii_case(v@.subrange(from as int, to as int), hq_header()),
{
    let ghost t = v@.subrange(from as int, to as int);
    let h: Vec<char> = vec!['[', 'h', 'q', 'h', 'o', 's', 't', ']'];
    assert(h@ == hq_header());
    if to - from != 8 {
        return false;
    }
    let mut i: usize = 0;
    while i < 8
        invariant
            to - from == 8,
            from <= to <= v.len(),
            h@ == hq_header(),
            t == v@.subrange(from as int, to as int),
            0 <= i <= 8,
            forall|q: int| 0 <= q < i ==> ascii_lower(#[trigger] t[q]) == ascii_lower(h@[q]),
        decreases 8 - i,
    {
        if ascii_lower_exec(v[from + i]) != ascii_lower_exec(h[i]) {
            assert(t[i as int] == v@[from + i]);
            return false;
        }
        i = i + 1;
    }
    true
}

struct ScanState {
    in_hq: bool,
    ips: Vec<(String, String)>,
    ports: Vec<(String, u16)>,
    names: Vec<(String, String)>,
}

spec fn scan_state_view(s: ScanState) -> HqScan {
    HqScan {
        in_hq: s.in_hq,
        ips: s.ips@.map_values(|p: (String, String)| (p.0@, p.1@)),
        ports: s.ports@.map_values(|p: (String, u16)| (p.0@, p.1)),
        names: s.names@.map_values(|p: (String, String)| (p.0@, p.1@)),
    }
}

/// Applies the line `v[from..to]` to the scan state.
fn process_line_exec(st: &mut ScanState, v: &Vec<char>, from: usize, to: usize)
    requires
        from <= to <= v.len(),
    ensures
        scan_state_view(*final(st)) == process_line(
            scan_state_view(*old(st)),
            v@.subrange(from as int, to as int),
        ),
{
    let ghost line = v@.subrange(from as int, to as int);
    let ghost old_view = scan_state_view(*st);
    let (a, b) = trim_bounds(v, from, to);
    let ghost t = trim(line);
    assert(v@.subrange(a as int, b as int) == t);
    if a == b {
        return;
    }
    if v[a] == '[' && v[b - 1] == ']' {
        proof {
            assert(t[0] == v@[a as int] && t.last() == v@[b - 1]);
        }
        st.in_hq = is_hq_header(v, a, b);
        return;
    }
    proof {
        assert(t[0] == v@[a as int] && t.last() == v@[b - 1]);
    }
    if !st.in_hq {
        return;
    }
    match key_value_exec(v, a, b) {
        Some(((ka, kb), (va, vb))) => {
            let ip_p: Vec<char> = vec!['I', 'P', 'A', 'd', 'd', 'r', 'e', 's', 's'];
            let port_p: Vec<char> = vec!['P', 'o', 'r', 't'];
            let name_p: Vec<char> = vec!['H', 'o', 's', 't', 'N', 'a', 'm', 'e'];
            assert(ip_p@ == ip_prefix());
            assert(port_p@ == port_prefix());
            assert(name_p@ == name_prefix());
            match extract_number_exec(v, ka, kb, &ip_p) {
                Some((na, nb)) => {
                    st.ips.push((string_of(v, na, nb), string_of(v, va, vb)));
                    proof {
                        assert(scan_state_view(*st).ips =~= old_view.ips.push(
                            (v@.subrange(na as int, nb as int), v@.subrange(va as int, vb as int)),
                        ));
                    }
                },
                None => match extract_number_exec(v, ka, kb, &port_p) {
                    Some((na, nb)) => match parse_u16_exec(v, va, vb) {
                        Some(p) => {
                            st.ports.push((string_of(v, na, nb), p));
                            proof {
                                assert(scan_state_view(*st).ports =~= old_view.ports.push(
                                    (v@.subrange(na as int, nb as int), p),
                                ));
                            }
                        },
                        None => {},
                    },
                    None => match extract_number_exec(v, ka, kb, &name_p) {
                        Some((na, nb)) => {
                            st.names.push((string_of(v, na, nb), string_of(v, va, vb)));
                            proof {
                                assert(scan_state_view(*st).names =~= old_view.names.push(
                                    (
                                        v@.subrange(na as int, nb as int),
                                        v@.subrange(va as int, vb as int),
                                    ),
                                ));
                            }
                        },
                        None => {},
                    },
                },
            }
        },
        None => {},
    }
}

/// The port of the first `Port<n>` entry for `n`, or 7709.
fn port_for_exec(ports: &Vec<(String, u16)>, n: &String) -> (r: u16)
    ensures
        r == port_for(ports@.map_values(|p: (String, u16)| (p.0@, p.1)), n@),
{
    let ghost pv = ports@.map_values(|p: (String, u16)| (p.0@, p.1));
    let mut i: usize = 0;
    assert(pv.skip(0) =~= pv);
    while i < ports.len()
        invariant
            0 <= i <= ports.len(),
            pv == ports@.map_values(|p: (String, u16)| (p.0@, p.1)),
            port_for(pv, n@) == port_for(pv.skip(i as int), n@),
        decreases ports.len() - i,
    {
        proof {
            assert(pv.skip(i as int).drop_first() =~= pv.skip(i + 1));
            assert(pv.skip(i as int)[0] == pv[i as int]);
        }
        if ports[i].0 == *n {
            return ports[i].1;
        }
        i = i + 1;
    }
    proof {
        assert(pv.skip(i as int).len() == 0);
    }
    7709
}

/// The name of the first `HostName<n>` entry for `n`, or `TDX-<n>`.
fn name_for_exec(names: &Vec<(String, String)>, n: &String) -> (r: String)
    ensures
        r@ == name_for(names@.map_values(|p: (String, String)| (p.0@, p.1@)), n@),
{
    let ghost nv = names@.map_values(|p: (String, String)| (p.0@, p.1@));
    let mut i: usize = 0;
    assert(nv.skip(0) =~= nv);
    while i < names.len()
        invariant
            0 <= i <= names.len(),
            nv == names@.map_values(|p: (String, String)| (p.0@, p.1@)),
            name_for(nv, n@) == name_for(nv.skip(i as int), n@),
        decreases names.len() - i,
    {
        proof {
            assert(nv.skip(i as int).drop_first() =~= nv.skip(i + 1));
            assert(nv.skip(i as int)[0] == nv[i as int]);
        }
        if names[i].0 == *n {
            return names[i].1.clone();
        }
        i = i + 1;
    }
    proof {
        assert(nv.skip(i as int).len() == 0);
        reveal_strlit("TDX-");
        assert("TDX-"@ =~= seq!['T', 'D', 'X', '-']);
    }
    let mut r = String::new();
    push_str(&mut r, "TDX-");
    push_str(&mut r, n.as_str());
    r
}

/// The servers listed in the `[HQHOST]` section of `connect.cfg` text: one
/// per `IPAddress<n>=<ip>` line, in file order, with the port of the first
/// valid `Port<n>` line (7709 without one) and the name of the first
/// `HostName<n>` line (`TDX-<n>` without one).  Section headers are matched
/// without regard to ASCII case; lines are trimmed of white space.
pub fn parse_hq_host_section(content: &str) -> (r: Vec<HqHostEntry>)
    ensures
        entries_view(r@) == hq_entries(content@),
{
    let v = chars_of(content);
    let mut st = ScanState { in_hq: false, ips: Vec::new(), ports: Vec::new(), names: Vec::new() };
    assert(scan_state_view(st).ips =~= initial_scan().ips);
    assert(scan_state_view(st).ports =~= initial_scan().ports);
    assert(scan_state_view(st).names =~= initial_scan().names);
    let mut p: usize = 0;
    let mut finished = false;
    assert(v@.skip(0) =~= v@);
    while !finished
        invariant
            0 <= p <= v.len(),
            finished ==> scan_state_view(st) == scan_lines(initial_scan(), v@),
            !finished ==> scan_lines(initial_scan(), v@) == scan_lines(
                scan_state_view(st),
                v@.skip(p as int),
            ),
        decreases v.len() - p + (if finished {
            0int
        } else {
            1int
        }),
    {
        let k = find_char(&v, p, v.len(), '\n');
        proof {
            assert(v@.subrange(p as int, v.len() as int) =~= v@.skip(p as int));
        }
        if p + k == v.len() {
            process_line_exec(&mut st, &v, p, v.len());
            finished = true;
        } else {
            proof {
                let s = v@.skip(p as int);
                assert(s.take(k as int) =~= v@.subrange(p as int, p + k));
                assert(s.skip(k + 1) =~= v@.skip(p + k + 1));
            }
            process_line_exec(&mut st, &v, p, p + k);
            p = p + k + 1;
        }
    }
    let ghost fin = scan_state_view(st);
    let mut r: Vec<HqHostEntry> = Vec::new();
    let mut i: usize = 0;
    while i < st.ips.len()
        invariant
            0 <= i <= st.ips.len(),
            fin == scan_state_view(st),
            fin == scan_lines(initial_scan(), v@),
            v@ == content@,
            entries_view(r@) == hq_entries(content@).take(i as int),
        decreases st.ips.len() - i,
    {
        let name = name_for_exec(&st.names, &st.ips[i].0);
        let port = port_for_exec(&st.ports, &st.ips[i].0);
        let ip = st.ips[i].1.clone();
        proof {
            assert(fin.ips[i as int] == (st.ips@[i as int].0@, st.ips@[i as int].1@));
        }
        let ghost before = r@;
        r.push(HqHostEntry { name, ip, port });
        proof {
            assert(entries_view(r@) =~= entries_view(before).push(hq_entries(content@)[i as int]));
        }
        i = i + 1;
        proof {
            assert(entries_view(r@) =~= hq_entries(content@).take(i as int));
        }
    }
    assert(hq_entries(content@).take(i as int) =~= hq_entries(content@));
    r
}

// ── laws of the server list ────────────────────────────────────────────────
/// The port given to number `n` is that of the first `Port<n>` line: when
/// the line at `j` is the first whose number is `n`, its port is the one.
pub proof fn law_port_of_first_matching_line(ports: Seq<(Seq<char>, u16)>, n: Seq<char>, j: int)
    requires
        0 <= j < ports.len(),
        ports[j].0 == n,
        forall|i: int| 0 <= i < j ==> ports[i].0 != n,
    ensures
        port_for(ports, n) == ports[j].1,
    decreases j,
{
    if j > 0 {
        assert forall|i: int| 0 <= i < j - 1 implies ports.drop_first()[i].0 != n by {
            assert(ports.drop_first()[i] == ports[i + 1]);
        }
        law_port_of_first_matching_line(ports.drop_first(), n, j - 1);
    }
}

/// Without a `Port<n>` line, number `n` gets the default port 7709.
pub proof fn law_port_default(ports: Seq<(Seq<char>, u16)>, n: Seq<char>)
    requires
        forall|i: int| 0 <= i < ports.len() ==> ports[i].0 != n,
    ensures
        port_for(ports, n) == 7709,
    decreases ports.len(),
{
    if ports.len() > 0 {
        assert(ports[0].0 != n);
        assert forall|i: int| 0 <= i < ports.len() - 1 implies ports.drop_first()[i].0 != n by {
            assert(ports.drop_first()[i] == ports[i + 1]);
        }
        law_port_default(ports.drop_first(), n);
    }
}

/// The name given to number `n` is that of the first `HostName<n>` line.
pub proof fn law_name_of_first_matching_line(
    names: Seq<(Seq<char>, Seq<char>)>,
    n: Seq<char>,
    j: int,
)
    requires
        0 <= j < names.len(),
        names[j].0 == n,
        forall|i: int| 0 <= i < j ==> names[i].0 != n,
    ensures
        name_for(names, n) == names[j].1,
    decreases j,
{
    if j > 0 {
        assert forall|i: int| 0 <= i < j - 1 implies names.drop_first()[i].0 != n by {
            assert(names.drop_first()[i] == names[i + 1]);
        }
        law_name_of_first_matching_line(names.drop_first(), n, j - 1);
    }
}

/// Each server of the `[HQHOST]` section gets the port of the first
/// `Port<n>` line with the number `n` of its `IPAddress<n>` line, and 7709
/// when there is no such line: the servers read from `content`, in order,
/// with the numbers and ports of the section's lines in `scan_lines`.
pub proof fn law_server_port_matches_its_number(content: Seq<char>, k: int)
    requires
        0 <= k < hq_entries(content).len(),
    ensures
        ({
            let st = scan_lines(initial_scan(), content);
            let n = st.ips[k].0;
            &&& hq_entries(content)[k].1 == st.ips[k].1
            &&& forall|j: int|
                0 <= j < st.ports.len() && st.ports[j].0 == n && (forall|i: int|
                    0 <= i < j ==> st.ports[i].0 != n) ==> hq_entries(content)[k].2
                    == #[trigger] st.ports[j].1
            &&& (forall|i: int| 0 <= i < st.ports.len() ==> st.ports[i].0 != n)
                ==> hq_entries(content)[k].2 == 7709
        }),
{
    let st = scan_lines(initial_scan(), content);
    let n = st.ips[k].0;
    assert forall|j: int|
        0 <= j < st.ports.len() && st.ports[j].0 == n && (forall|i: int|
            0 <= i < j ==> st.ports[i].0 != n) implies hq_entries(content)[k].2
        == #[trigger] st.ports[j].1 by {
        law_port_of_first_matching_line(st.ports, n, j);
    }
    if forall|i: int| 0 <= i < st.ports.len() ==> st.ports[i].0 != n {
        law_port_default(st.ports, n);
    }
}

// ── candidate servers ──────────────────────────────────────────────────────
/// A socket address as plain values: IPv6 or not, the address bits, the port.
#[derive(Clone, Copy, PartialEq, Eq, Structural, Debug)]
pub struct AddrKey {
    pub v6: bool,
    pub ip: u128,
    pub port: u16,
}

/// Indices of the first occurrence of each distinct key, in order.
pub open spec fn first_occurrences(keys: Seq<AddrKey>) -> Seq<usize>
    decreases keys.len(),
{
    if keys.len() == 0 {
        Seq::empty()
    } else {
        let rest = first_occurrences(keys.drop_last());
        if keys.drop_last().contains(keys.last()) {
            rest
        } else {
            rest.push((keys.len() - 1) as usize)
        }
    }
}

proof fn lemma_first_occurrences_step(keys: Seq<AddrKey>)
    requires
        keys.len() > 0,
        keys.len() <= usize::MAX,
    ensures
        keys.drop_last().contains(keys.last()) ==> first_occurrences(keys) == first_occurrences(
            keys.drop_last(),
        ),
        !keys.drop_last().contains(keys.last()) ==> first_occurrences(keys) == first_occurrences(
            keys.drop_last(),
        ).push((keys.len() - 1) as usize),
        ((keys.len() - 1) as usize) as int == keys.len() - 1,
{
}

proof fn lemma_first_occurrences_kept(keys: Seq<AddrKey>)
    requires
        keys.len() <= usize::MAX,
    ensures
        forall|k: int|
            0 <= k < first_occurrences(keys).len() ==> (#[trigger] first_occurrences(keys)[k])
                < keys.len() && forall|q: int|
                0 <= q < first_occurrences(keys)[k] ==> #[trigger] keys[q] != keys[first_occurrences(
                    keys,
                )[k] as int],
        forall|a: int, b: int|
            0 <= a < b < first_occurrences(keys).len() ==> #[trigger] first_occurrences(keys)[a]
                < #[trigger] first_occurrences(keys)[b],
    decreases keys.len(),
{
    if keys.len() > 0 {
        let p = keys.drop_last();
        lemma_first_occurrences_kept(p);
        lemma_first_occurrences_step(keys);
        let r = first_occurrences(keys);
        let rp = first_occurrences(p);
        let n = keys.len() - 1;
        assert forall|k: int| 0 <= k < r.len() implies (#[trigger] r[k]) < keys.len() && forall|
            q: int,
        | 0 <= q < r[k] ==> #[trigger] keys[q] != keys[r[k] as int] by {
            if k < rp.len() {
                assert(r[k] == rp[k]);
                assert forall|q: int| 0 <= q < r[k] implies #[trigger] keys[q] != keys[r[k] as int] by {
                    assert(p[q] == keys[q] && p[rp[k] as int] == keys[rp[k] as int]);
                }
            } else {
                assert(r[k] == n);
                assert forall|q: int| 0 <= q < r[k] implies #[trigger] keys[q] != keys[r[k] as int] by {
                    assert(p[q] == keys[q]);
                    if keys[q] == keys[n] {
                        assert(p.contains(keys.last()));
                    }
                }
            }
        }
        assert forall|a: int, b: int| 0 <= a < b < r.len() implies #[trigger] r[a] < #[trigger] r[b] by {
            if b < rp.len() {
                assert(r[a] == rp[a] && r[b] == rp[b]);
            } else {
                assert(r[a] == rp[a]);
                assert(rp[a] < p.len());
                assert(r[b] == n);
            }
        }
    }
}

proof fn lemma_first_occurrences_cover(keys: Seq<AddrKey>)
    requires
        keys.len() <= usize::MAX,
    ensures
        forall|i: int|
            0 <= i < keys.len() ==> exists|k: int|
                0 <= k < first_occurrences(keys).len() && keys[#[trigger] first_occurrences(
                    keys,
                )[k] as int] == #[trigger] keys[i],
    decreases keys.len(),
{
    if keys.len() > 0 {
        let p = keys.drop_last();
        lemma_first_occurrences_cover(p);
        lemma_first_occurrences_step(keys);
        let r = first_occurrences(keys);
        let rp = first_occurrences(p);
        let n = keys.len() - 1;
        assert forall|i: int| 0 <= i < keys.len() implies exists|k: int|
            0 <= k < r.len() && keys[#[trigger] r[k] as int] == #[trigger] keys[i] by {
            if i < n {
                assert(p[i] == keys[i]);
                let k = choose|k: int| 0 <= k < rp.len() && p[#[trigger] rp[k] as int] == #[trigger] p[i];
                assert(r[k] == rp[k]);
                lemma_first_occurrences_kept(p);
                assert(p[rp[k] as int] == keys[rp[k] as int]);
            } else if p.contains(keys.last()) {
                let j = choose|j: int| 0 <= j < p.len() && p[j] == keys.last();
                let k = choose|k: int| 0 <= k < rp.len() && p[#[trigger] rp[k] as int] == #[trigger] p[j];
                assert(r[k] == rp[k]);
                lemma_first_occurrences_kept(p);
                assert(p[rp[k] as int] == keys[rp[k] as int]);
            } else {
                assert(r[r.len() - 1] == n);
            }
        }
    }
}

/// De-duplication keeps exactly the first occurrence of each address, in
/// order: every kept index holds an address not seen before it, the kept
/// indices increase, and every address of `keys` is kept.
pub proof fn law_first_occurrences(keys: Seq<AddrKey>)
    requires
        keys.len() <= usize::MAX,
    ensures
        forall|k: int|
            0 <= k < first_occurrences(keys).len() ==> (#[trigger] first_occurrences(keys)[k])
                < keys.len() && forall|q: int|
                0 <= q < first_occurrences(keys)[k] ==> #[trigger] keys[q] != keys[first_occurrences(
                    keys,
                )[k] as int],
        forall|a: int, b: int|
            0 <= a < b < first_occurrences(keys).len() ==> #[trigger] first_occurrences(keys)[a]
                < #[trigger] first_occurrences(keys)[b],
        forall|i: int|
            0 <= i < keys.len() ==> exists|k: int|
                0 <= k < first_occurrences(keys).len() && keys[#[trigger] first_occurrences(
                    keys,
                )[k] as int] == #[trigger] keys[i],
{
    lemma_first_occurrences_kept(keys);
    lemma_first_occurrences_cover(keys);
}

/// The candidate list without repeated addresses (the first of each is
/// kept): the indices into `keys` that survive, in order.
pub fn dedup_addresses(keys: &Vec<AddrKey>) -> (r: Vec<usize>)
    ensures
        r@ == first_occurrences(keys@),
{
    let mut r: Vec<usize> = Vec::new();
    let mut i: usize = 0;
    while i < keys.len()
        invariant
            0 <= i <= keys.len(),
            r@ == first_occurrences(keys@.take(i as int)),
        decreases keys.len() - i,
    {
        let mut seen = false;
        let mut j: usize = 0;
        while j < i
            invariant
                0 <= j <= i < keys.len(),
                seen == exists|q: int| 0 <= q < j && keys@[q] == keys@[i as int],
            decreases i - j,
        {
            if keys[j] == keys[i] {
                seen = true;
            }
            j = j + 1;
        }
        proof {
            let t = keys@.take(i + 1);
            assert(t.drop_last() =~= keys@.take(i as int));
            assert(t.last() == keys@[i as int]);
            if seen {
                let q = choose|q: int| 0 <= q < i && keys@[q] == keys@[i as int];
                assert(t.drop_last()[q] == t.last());
            } else {
                assert(!t.drop_last().contains(t.last())) by {
                    if t.drop_last().contains(t.last()) {
                        let q = choose|q: int| 0 <= q < t.drop_last().len() && t.drop_last()[q]
                            == t.last();
                        assert(keys@[q] == keys@[i as int]);
                    }
                }
            }
        }
        if !seen {
            r.push(i);
        }
        i = i + 1;
    }
    assert(keys@.take(keys.len() as int) =~= keys@);
    r
}

/// Candidate indices for the protocol handshake: the candidates that
/// accepted a plain TCP connection, in order; when none did, the first five.
pub fn rustdx_probe_order(reachable: &Vec<bool>) -> (r: Vec<usize>)
    ensures
        forall|k: int| 0 <= k < r.len() ==> #[trigger] r@[k] < reachable.len(),
        reachable.len() == 0 ==> r.len() == 0,
        (exists|k: int| 0 <= k < reachable.len() && reachable@[k]) ==> (forall|k: int|
            0 <= k < r.len() ==> reachable@[#[trigger] r@[k] as int]) && (forall|k: int|
            0 <= k < reachable.len() && reachable@[k] ==> r@.contains(k as usize)) && (forall|
            a: int,
            b: int,
        | 0 <= a < b < r.len() ==> r@[a] < r@[b]),
        reachable.len() > 0 && (forall|k: int| 0 <= k < reachable.len() ==> !reachable@[k])
            ==> r@ == Seq::new(
            if reachable.len() < 5 {
                reachable.len() as nat
            } else {
                5
            },
            |i: int| i as usize,
        ),
{
    let mut r: Vec<usize> = Vec::new();
    let mut i: usize = 0;
    while i < reachable.len()
        invariant
            0 <= i <= reachable.len(),
            forall|k: int| 0 <= k < r.len() ==> #[trigger] r@[k] < i && reachable@[r@[k] as int],
            forall|k: int| 0 <= k < i && reachable@[k] ==> r@.contains(k as usize),
            forall|a: int, b: int| 0 <= a < b < r.len() ==> r@[a] < r@[b],
            r.len() == 0 <==> forall|k: int| 0 <= k < i ==> !reachable@[k],
        decreases reachable.len() - i,
    {
        let ghost before = r@;
        if reachable[i] {
            r.push(i);
            assert(r@[r.len() - 1] == i);
        }
        proof {
            assert forall|k: int| 0 <= k < i + 1 && reachable@[k] implies r@.contains(k as usize) by {
                if k < i {
                    let j = choose|j: int| 0 <= j < before.len() && before[j] == k as usize;
                    assert(r@[j] == k as usize);
                } else {
                    assert(r@[r.len() - 1] == i);
                }
            }
        }
        i = i + 1;
    }
    if r.len() > 0 || reachable.len() == 0 {
        return r;
    }
    let n = if reachable.len() < 5 {
        reachable.len()
    } else {
        5
    };
    let mut few: Vec<usize> = Vec::new();
    let mut j: usize = 0;
    while j < n
        invariant
            0 <= j <= n <= reachable.len(),
            few@ == Seq::new(j as nat, |q: int| q as usize),
        decreases n - j,
    {
        few.push(j);
        j = j + 1;
        assert(few@ =~= Seq::new(j as nat, |q: int| q as usize));
    }
    few
}

/// `key=value` of a line, both trimmed; `None` without `=` or with an
/// empty key.
pub fn parse_key_value(line: &str) -> (r: Option<(String, String)>)
    ensures
        match key_value(line@) {
            Some((k, v)) => r matches Some((a, b)) && a@ == k && b@ == v,
            None => r is None,
        },
{
    let v = chars_of(line);
    proof {
        assert(v@.subrange(0, v.len() as int) =~= v@);
    }
    match key_value_exec(&v, 0, v.len()) {
        Some(((ka, kb), (va, vb))) => Some((string_of(&v, ka, kb), string_of(&v, va, vb))),
        None => None,
    }
}

/// The digits that follow `prefix` in `key` (`IPAddress01` gives `01`),
/// when there is at least one and nothing else.
pub fn extract_number(key: &str, prefix: &str) -> (r: Option<String>)
    ensures
        match spec_extract_number(key@, prefix@) {
            Some(n) => r matches Some(x) && x@ == n,
            None => r is None,
        },
{
    let v = chars_of(key);
    let p = chars_of(prefix);
    proof {
        assert(v@.subrange(0, v.len() as int) =~= v@);
    }
    match extract_number_exec(&v, 0, v.len(), &p) {
        Some((a, b)) => Some(string_of(&v, a, b)),
        None => None,
    }
}

} // verus!
