//! Style persistence: newline-delimited records, one per watched command,
//! each holding the command text and its per-item style overrides. The
//! records are written in a canonical form — the command text quoted with
//! quotes, backslashes and control characters escaped, the overrides as a
//! brace-delimited list of quoted indices — and read back only in that
//! form: a line in any other shape is a hard error.

use vstd::prelude::*;

use crate::assoc::{assoc_lookup, assoc_unique, lemma_assoc_lookup_some, lemma_assoc_push};
use crate::dwatch::{all_digits, digits_value};
use crate::exec::{spec_trim, spec_trim_end, spec_trim_start, trim_str};
use crate::ranges::is_digit;
use crate::styles::NUM_STYLES;
use crate::text::{digit_char, push_char, spec_nat_string, str_to_chars, u64_to_string};

verus! {

/// A persistence failure: the style file held a line that is not a record.
#[derive(PartialEq, Eq, Structural, Clone, Copy, Debug)]
pub enum PersistenceError {
    /// The line at this position (counted from zero) is malformed.
    Malformed { line: usize },
}

/// One persisted record: a watched command and its per-item overrides.
#[derive(Debug)]
pub struct StyleRecord {
    /// The exact normalized command text the overrides belong to.
    pub command: String,
    /// The per-item style overrides, keyed by flattened item index.
    pub styles: Vec<(usize, usize)>,
}

/// The hexadecimal digit of a value below sixteen, in lower case.
pub open spec fn hex_digit(d: int) -> char {
    if d < 10 {
        digit_char(d)
    } else if d == 10 {
        'a'
    } else if d == 11 {
        'b'
    } else if d == 12 {
        'c'
    } else if d == 13 {
        'd'
    } else if d == 14 {
        'e'
    } else {
        'f'
    }
}

/// The canonical escape of one character: quotes and backslashes get a
/// backslash, control characters a four-digit escape, anything else stands
/// as itself.
pub open spec fn spec_escape_char(c: char) -> Seq<char> {
    if c == '"' {
        seq!['\\', '"']
    } else if c == '\\' {
        seq!['\\', '\\']
    } else if (c as int) < 32 {
        seq!['\\', 'u', '0', '0', hex_digit(c as int / 16), hex_digit(c as int % 16)]
    } else {
        seq![c]
    }
}

/// The escaped text of `s` from position `i` on.
pub open spec fn spec_escape_from(s: Seq<char>, i: int) -> Seq<char>
    decreases s.len() - i,
{
    if !(0 <= i < s.len()) {
        Seq::empty()
    } else {
        spec_escape_char(s[i]) + spec_escape_from(s, i + 1)
    }
}

/// The escaped text of `s`.
pub open spec fn spec_escape(s: Seq<char>) -> Seq<char> {
    spec_escape_from(s, 0)
}

/// The quoted, escaped form of a text.
pub open spec fn spec_quoted(s: Seq<char>) -> Seq<char> {
    seq!['"'] + spec_escape(s) + seq!['"']
}

/// One override entry: the quoted item index, a colon, the style index.
pub open spec fn spec_styles_entry(k: usize, v: usize) -> Seq<char> {
    seq!['"'] + spec_nat_string(k as nat) + seq!['"', ':'] + spec_nat_string(v as nat)
}

/// The override entries from position `j` on, comma-separated.
pub open spec fn spec_styles_body(m: Seq<(usize, usize)>, j: int) -> Seq<char>
    decreases m.len() - j,
{
    if !(0 <= j < m.len()) {
        Seq::empty()
    } else {
        let sep: Seq<char> = if j > 0 {
            seq![',']
        } else {
            Seq::empty()
        };
        sep + spec_styles_entry(m[j].0, m[j].1) + spec_styles_body(m, j + 1)
    }
}

/// The canonical text of one record.
pub open spec fn spec_record(cmd: Seq<char>, m: Seq<(usize, usize)>) -> Seq<char> {
    "{\"command\":"@ + spec_quoted(cmd) + ",\"styles\":{"@ + spec_styles_body(m, 0) + "}}"@
}

/// The value of a lower-case hexadecimal digit character; any other
/// character is rejected.
pub open spec fn spec_hex_val(c: char) -> Option<int> {
    if '0' <= c && c <= '9' {
        Some(c as int - 48)
    } else if 'a' <= c && c <= 'f' {
        Some(c as int - 87)
    } else {
        None
    }
}

/// What expecting the literal `lit` at position `i` yields: the position
/// after it where the text stands there, nothing otherwise.
pub open spec fn spec_expect(cs: Seq<char>, i: int, lit: Seq<char>) -> Option<int> {
    if i + lit.len() <= cs.len() && cs.subrange(i, i + lit.len()) == lit {
        Some(i + lit.len())
    } else {
        None
    }
}

/// What scanning a quoted body from position `k` yields, with `dec` the
/// text decoded so far: the decoded text and the position after the
/// closing quote. Only the canonical escapes are read back; an unescaped
/// control character, a foreign escape, or a missing closing quote is
/// rejected.
pub open spec fn spec_scan_quoted(cs: Seq<char>, k: int, dec: Seq<char>) -> Option<
    (Seq<char>, int),
>
    decreases cs.len() - k,
{
    if !(0 <= k < cs.len()) {
        None
    } else if cs[k] == '"' {
        Some((dec, k + 1))
    } else if cs[k] == '\\' {
        if !(k + 1 < cs.len()) {
            None
        } else {
            let e = cs[k + 1];
            if e == '"' {
                spec_scan_quoted(cs, k + 2, dec.push('"'))
            } else if e == '\\' {
                spec_scan_quoted(cs, k + 2, dec.push('\\'))
            } else if e == 'u' {
                if !(k + 5 < cs.len()) {
                    None
                } else if cs[k + 2] != '0' || cs[k + 3] != '0' {
                    None
                } else {
                    match spec_hex_val(cs[k + 4]) {
                        Some(h) => match spec_hex_val(cs[k + 5]) {
                            Some(l) => if 16 * h + l < 32 {
                                spec_scan_quoted(cs, k + 6, dec.push((((16 * h + l) as u8) as char)))
                            } else {
                                None
                            },
                            None => None,
                        },
                        None => None,
                    }
                }
            } else {
                None
            }
        }
    } else if (cs[k] as int) < 32 {
        None
    } else {
        spec_scan_quoted(cs, k + 1, dec.push(cs[k]))
    }
}

/// What parsing a quoted text at position `i` yields.
pub open spec fn spec_parse_quoted(cs: Seq<char>, i: int) -> Option<(Seq<char>, int)> {
    if 0 <= i < cs.len() && cs[i] == '"' {
        spec_scan_quoted(cs, i + 1, Seq::empty())
    } else {
        None
    }
}

/// What scanning decimal digits from position `k` yields, with `acc` the
/// value read so far: the value and the first position past the digits. A
/// value beyond the index type is rejected.
pub open spec fn spec_scan_usize(cs: Seq<char>, k: int, acc: int) -> Option<(int, int)>
    decreases cs.len() - k,
{
    if !(0 <= k < cs.len() && is_digit(cs[k])) {
        Some((acc, k))
    } else {
        let a2 = acc * 10 + (cs[k] as int - 48);
        if a2 > usize::MAX {
            None
        } else {
            spec_scan_usize(cs, k + 1, a2)
        }
    }
}

/// What parsing a canonical decimal index at position `i` yields: one or
/// more digits without a leading zero (a single zero stands alone), and
/// the position after them.
pub open spec fn spec_parse_usize(cs: Seq<char>, i: int) -> Option<(int, int)> {
    if !(0 <= i < cs.len() && is_digit(cs[i])) {
        None
    } else if cs[i] == '0' {
        Some((0, i + 1))
    } else {
        spec_scan_usize(cs, i + 1, cs[i] as int - 48)
    }
}

/// What scanning override entries from position `j` yields, with `m` the
/// entries read so far: the entries and the position of the closing brace
/// (not consumed). Entries are comma-separated quoted indices with plain
/// values; a repeated index is rejected. The guard that each entry
/// advances the position keeps the recursion well founded; the index
/// parser always advances.
pub open spec fn spec_scan_styles(cs: Seq<char>, j: int, m: Seq<(usize, usize)>) -> Option<
    (Seq<(usize, usize)>, int),
>
    decreases cs.len() - j,
{
    if m.len() > 0 && !(0 <= j < cs.len() && cs[j] == ',') {
        None
    } else {
        let at: int = if m.len() > 0 {
            j + 1
        } else {
            j
        };
        if !(0 <= at < cs.len() && cs[at] == '"') {
            None
        } else {
            match spec_parse_usize(cs, at + 1) {
                None => None,
                Some((key, after_key)) => {
                    if !(0 <= after_key < cs.len() && cs[after_key] == '"') {
                        None
                    } else if !(after_key + 1 < cs.len() && cs[after_key + 1] == ':') {
                        None
                    } else {
                        match spec_parse_usize(cs, after_key + 2) {
                            None => None,
                            Some((val, after_val)) => {
                                if assoc_lookup(m, key as usize) is Some {
                                    None
                                } else {
                                    let m2 = m.push((key as usize, val as usize));
                                    if 0 <= after_val < cs.len() && cs[after_val] == '}' {
                                        Some((m2, after_val))
                                    } else if !(j < after_val <= cs.len()) {
                                        None
                                    } else {
                                        spec_scan_styles(cs, after_val, m2)
                                    }
                                }
                            },
                        }
                    }
                },
            }
        }
    }
}

/// What parsing the override entries at position `i` yields: empty at a
/// closing brace, the scanned entries otherwise.
pub open spec fn spec_parse_styles(cs: Seq<char>, i: int) -> Option<(Seq<(usize, usize)>, int)> {
    if 0 <= i < cs.len() && cs[i] == '}' {
        Some((Seq::empty(), i))
    } else {
        spec_scan_styles(cs, i, Seq::empty())
    }
}

/// What parsing one whole record line yields: the command text and the
/// override entries, where the line is exactly one canonical record.
pub open spec fn spec_parse_record_text(line: Seq<char>) -> Option<
    (Seq<char>, Seq<(usize, usize)>),
> {
    match spec_expect(line, 0, "{\"command\":"@) {
        None => None,
        Some(i1) => match spec_parse_quoted(line, i1) {
            None => None,
            Some((cmd, i2)) => match spec_expect(line, i2, ",\"styles\":{"@) {
                None => None,
                Some(i3) => match spec_parse_styles(line, i3) {
                    None => None,
                    Some((m, i4)) => match spec_expect(line, i4, "}}"@) {
                        None => None,
                        Some(i5) => if i5 == line.len() {
                            Some((cmd, m))
                        } else {
                            None
                        },
                    },
                },
            },
        },
    }
}

/// Appends the escaped text of `s`.
fn append_escaped(out: &mut String, s: &str)
    ensures
        final(out)@ == old(out)@ + spec_escape(s@),
{
    let n = s.unicode_len();
    let mut i: usize = 0;
    proof {
        assert(out@ + spec_escape_from(s@, 0) =~= old(out)@ + spec_escape_from(s@, 0));
    }
    while i < n
        invariant
            i <= n,
            n == s@.len(),
            old(out)@ + spec_escape(s@) == out@ + spec_escape_from(s@, i as int),
        decreases n - i,
    {
        let c = s.get_char(i);
        let ghost prev = out@;
        let u = c as u32;
        if c == '"' {
            push_char(out, '\\');
            push_char(out, '"');
        } else if c == '\\' {
            push_char(out, '\\');
            push_char(out, '\\');
        } else if u < 32 {
            push_char(out, '\\');
            push_char(out, 'u');
            push_char(out, '0');
            push_char(out, '0');
            let hi = (u / 16) as u8;
            let lo = (u % 16) as u8;
            let hc = if hi < 10 {
                (48 + hi) as char
            } else {
                (87 + hi) as char
            };
            let lc = if lo < 10 {
                (48 + lo) as char
            } else {
                (87 + lo) as char
            };
            proof {
                assert(hc == hex_digit(c as int / 16));
                assert(lc == hex_digit(c as int % 16));
            }
            push_char(out, hc);
            push_char(out, lc);
        } else {
            push_char(out, c);
        }
        proof {
            assert(out@ =~= prev + spec_escape_char(c));
        }
        i = i + 1;
    }
    proof {
        assert(out@ =~= out@ + spec_escape_from(s@, n as int));
    }
}

/// Appends the decimal text of an index.
fn append_usize(out: &mut String, v: usize)
    ensures
        final(out)@ == old(out)@ + spec_nat_string(v as nat),
{
    let digits = u64_to_string(v as u64);
    out.append(digits.as_str());
}

/// The canonical text of one record: the command quoted and escaped, then
/// its overrides in order.
pub fn serialize_record(rec: &StyleRecord) -> (out: String)
    ensures
        out@ == spec_record(rec.command@, rec.styles@),
{
    let mut out = String::new();
    out.append("{\"command\":");
    push_char(&mut out, '"');
    append_escaped(&mut out, rec.command.as_str());
    push_char(&mut out, '"');
    out.append(",\"styles\":{");
    proof {
        assert(out@ =~= "{\"command\":"@ + spec_quoted(rec.command@) + ",\"styles\":{"@);
    }
    let ghost head = out@;
    let m = rec.styles.len();
    let mut j: usize = 0;
    while j < m
        invariant
            j <= m,
            m == rec.styles@.len(),
            head + spec_styles_body(rec.styles@, 0) == out@ + spec_styles_body(
                rec.styles@,
                j as int,
            ),
        decreases m - j,
    {
        let ghost prev = out@;
        if j > 0 {
            push_char(&mut out, ',');
        }
        push_char(&mut out, '"');
        append_usize(&mut out, rec.styles[j].0);
        push_char(&mut out, '"');
        push_char(&mut out, ':');
        append_usize(&mut out, rec.styles[j].1);
        proof {
            let sep: Seq<char> = if j > 0 {
                seq![',']
            } else {
                Seq::empty()
            };
            assert(out@ =~= prev + sep + spec_styles_entry(
                rec.styles@[j as int].0,
                rec.styles@[j as int].1,
            ));
        }
        j = j + 1;
    }
    out.append("}}");
    proof {
        assert(out@ =~= spec_record(rec.command@, rec.styles@));
    }
    out
}

/// A digit string with no leading zero has a positive value.
proof fn lemma_digits_value_positive(ds: Seq<char>)
    requires
        all_digits(ds),
        ds.len() > 0,
        ds[0] != '0',
    ensures
        digits_value(ds) >= 1,
    decreases ds.len(),
{
    if ds.len() == 1 {
        assert(ds.drop_last() =~= Seq::<char>::empty());
        assert(ds.last() == ds[0]);
        assert(digits_value(ds.drop_last()) == 0);
        assert(digits_value(ds) == ds[0] as int - 48);
        assert(is_digit(ds[0]));
    } else {
        let p = ds.drop_last();
        assert(all_digits(p));
        assert(p[0] == ds[0]);
        lemma_digits_value_positive(p);
        assert(is_digit(ds.last()));
        assert(digits_value(ds) == digits_value(p) * 10 + (ds.last() as int - 48));
    }
}

/// A digit string without a leading zero is the canonical decimal text of
/// its own value.
proof fn lemma_nat_string_canonical(ds: Seq<char>)
    requires
        all_digits(ds),
        ds.len() > 0,
        ds.len() > 1 ==> ds[0] != '0',
    ensures
        digits_value(ds) >= 0,
        spec_nat_string(digits_value(ds) as nat) == ds,
    decreases ds.len(),
{
    crate::dwatch::lemma_digits_value_nonneg(ds);
    if ds.len() == 1 {
        assert(is_digit(ds[0]));
        assert(ds.drop_last() =~= Seq::<char>::empty());
        assert(ds.last() == ds[0]);
        assert(digits_value(ds.drop_last()) == 0);
        assert(digits_value(ds) == ds[0] as int - 48);
        assert(spec_nat_string(digits_value(ds) as nat) =~= seq![
            digit_char(digits_value(ds))
        ]);
        assert(digit_char(ds[0] as int - 48) == ds[0]);
    } else {
        let p = ds.drop_last();
        let d = ds.last() as int - 48;
        assert(all_digits(p));
        assert(p[0] == ds[0]);
        assert(is_digit(ds.last()));
        lemma_digits_value_positive(p);
        lemma_nat_string_canonical(p);
        let v = digits_value(ds);
        let vp = digits_value(p);
        assert(v == vp * 10 + d);
        vstd::arithmetic::div_mod::lemma_fundamental_div_mod_converse(v, 10, vp, d);
        assert(v / 10 == vp && v % 10 == d);
        assert(v >= 10);
        assert(spec_nat_string(v as nat) == spec_nat_string(vp as nat).push(digit_char(d)));
        assert(digit_char(d) == ds.last());
        assert(spec_nat_string(vp as nat).push(ds.last()) =~= ds);
    }
}

/// The value of one lower-case hexadecimal digit character, rejecting any
/// other character.
fn hex_val(c: char) -> (r: Option<u8>)
    ensures
        match r {
            Some(v) => spec_hex_val(c) == Some(v as int) && v < 16 && hex_digit(v as int) == c,
            None => spec_hex_val(c) is None,
        },
{
    if '0' <= c && c <= '9' {
        Some((c as u32 - 48) as u8)
    } else if 'a' <= c && c <= 'f' {
        Some((c as u32 - 87) as u8)
    } else {
        None
    }
}

/// Advances past the given literal text, or rejects the line.
fn expect(cs: &Vec<char>, i: usize, lit: &str) -> (r: Option<usize>)
    requires
        i <= cs@.len(),
    ensures
        match r {
            Some(j) => spec_expect(cs@, i as int, lit@) == Some(j as int) && i + lit@.len() == j
                && j <= cs@.len() && cs@.subrange(i as int, j as int) == lit@,
            None => spec_expect(cs@, i as int, lit@) is None,
        },
{
    let m = lit.unicode_len();
    let n = cs.len();
    if m > n - i {
        return None;
    }
    let mut k: usize = 0;
    let mut p = i;
    while k < m
        invariant
            k <= m,
            m == lit@.len(),
            p == i + k,
            n == cs@.len(),
            i + m <= n,
            forall|q: int| 0 <= q < k ==> cs@[i + q] == lit@[q],
        decreases m - k,
    {
        if cs[p] != lit.get_char(k) {
            proof {
                assert(cs@.subrange(i as int, i + lit@.len()) != lit@) by {
                    assert(cs@.subrange(i as int, i + lit@.len())[k as int] == cs@[i + k]);
                }
            }
            return None;
        }
        k = k + 1;
        p = p + 1;
    }
    proof {
        assert(cs@.subrange(i as int, (i + m) as int) =~= lit@);
    }
    Some(i + m)
}

/// Parses a quoted, canonically escaped text starting at `i`: on success
/// the consumed characters are exactly the canonical quoting of the
/// decoded text.
fn parse_quoted(cs: &Vec<char>, i: usize) -> (r: Option<(String, usize)>)
    requires
        i <= cs@.len(),
    ensures
        match r {
            Some((dec, j)) => spec_parse_quoted(cs@, i as int) == Some((dec@, j as int)) && i < j
                <= cs@.len() && cs@.subrange(i as int, j as int) == spec_quoted(dec@),
            None => spec_parse_quoted(cs@, i as int) is None,
        },
{
    let n = cs.len();
    if i >= n || cs[i] != '"' {
        return None;
    }
    let start = i + 1;
    let mut k = start;
    let mut dec = String::new();
    while k < n && cs[k] != '"'
        invariant
            start <= k <= n,
            n == cs@.len(),
            start == i + 1,
            i < n,
            cs@[i as int] == '"',
            cs@.subrange(start as int, k as int) == spec_escape(dec@),
            spec_parse_quoted(cs@, i as int) == spec_scan_quoted(cs@, k as int, dec@),
        decreases n - k,
    {
        let c = cs[k];
        let ghost prev = dec@;
        let ghost consumed_old = cs@.subrange(start as int, k as int);
        if c == '\\' {
            if k + 1 >= n {
                return None;
            }
            let e = cs[k + 1];
            if e == '"' {
                push_char(&mut dec, '"');
                k = k + 2;
            } else if e == '\\' {
                push_char(&mut dec, '\\');
                k = k + 2;
            } else if e == 'u' {
                if n - k < 6 {
                    return None;
                }
                if cs[k + 2] != '0' || cs[k + 3] != '0' {
                    return None;
                }
                let hi = match hex_val(cs[k + 4]) {
                    Some(v) => v,
                    None => {
                        return None;
                    },
                };
                let lo = match hex_val(cs[k + 5]) {
                    Some(v) => v,
                    None => {
                        return None;
                    },
                };
                let u: u32 = hi as u32 * 16 + lo as u32;
                if u >= 32 {
                    return None;
                }
                let decoded = u as u8 as char;
                proof {
                    assert(decoded as int == u);
                    vstd::arithmetic::div_mod::lemma_fundamental_div_mod_converse(
                        u as int,
                        16,
                        hi as int,
                        lo as int,
                    );
                    assert(hex_digit(decoded as int / 16) == cs@[k + 4]);
                    assert(hex_digit(decoded as int % 16) == cs@[k + 5]);
                }
                push_char(&mut dec, decoded);
                k = k + 6;
            } else {
                return None;
            }
        } else {
            if ' ' > c {
                return None;
            }
            proof {
                assert(c as int >= 32);
                assert(spec_escape_char(c) =~= seq![c]);
            }
            push_char(&mut dec, c);
            k = k + 1;
        }
        proof {
            lemma_escape_push(prev, dec@.last());
            assert(dec@ == prev.push(dec@.last()));
            assert(cs@.subrange(start as int, k as int) =~= consumed_old + spec_escape_char(
                dec@.last(),
            ));
        }
    }
    if k >= n {
        return None;
    }
    proof {
        assert(cs@.subrange(i as int, (k + 1) as int) =~= seq!['"'] + spec_escape(dec@)
            + seq!['"']);
    }
    Some((dec, k + 1))
}

/// Escaping one more character appends that character's escape.
proof fn lemma_escape_push(s: Seq<char>, c: char)
    ensures
        spec_escape(s.push(c)) == spec_escape(s) + spec_escape_char(c),
{
    lemma_escape_push_from(s, c, 0);
}

/// Escaping one more character appends its escape, from any position.
proof fn lemma_escape_push_from(s: Seq<char>, c: char, i: int)
    requires
        0 <= i <= s.len(),
    ensures
        spec_escape_from(s.push(c), i) == spec_escape_from(s, i) + spec_escape_char(c),
    decreases s.len() - i,
{
    let s2 = s.push(c);
    if i == s.len() {
        assert(s2[i] == c);
        assert(spec_escape_from(s2, i + 1) =~= Seq::<char>::empty());
        assert(spec_escape_from(s2, i) =~= spec_escape_char(c));
        assert(spec_escape_from(s, i) =~= Seq::<char>::empty());
    } else {
        assert(s2[i] == s[i]);
        lemma_escape_push_from(s, c, i + 1);
        assert(spec_escape_char(s[i]) + (spec_escape_from(s, i + 1) + spec_escape_char(c))
            =~= (spec_escape_char(s[i]) + spec_escape_from(s, i + 1)) + spec_escape_char(c));
    }
}

/// Parses a canonical decimal index at `i`: one or more digits without a
/// leading zero (a single zero stands alone), fitting the platform's
/// index type. On success the consumed characters are exactly the value's
/// canonical decimal text.
fn parse_usize(cs: &Vec<char>, i: usize) -> (r: Option<(usize, usize)>)
    requires
        i <= cs@.len(),
    ensures
        match r {
            Some((v, j)) => spec_parse_usize(cs@, i as int) == Some((v as int, j as int)) && i < j
                <= cs@.len() && cs@.subrange(i as int, j as int) == spec_nat_string(v as nat),
            None => spec_parse_usize(cs@, i as int) is None,
        },
{
    let n = cs.len();
    if i >= n {
        return None;
    }
    let c0 = cs[i];
    if !('0' <= c0 && c0 <= '9') {
        return None;
    }
    if c0 == '0' {
        proof {
            let ds = cs@.subrange(i as int, i + 1);
            assert(ds =~= seq!['0']);
            assert(all_digits(ds));
            assert(ds.drop_last() =~= Seq::<char>::empty());
            assert(ds.last() == '0');
            assert(digits_value(Seq::<char>::empty()) == 0);
            assert(digits_value(ds) == 0);
            lemma_nat_string_canonical(ds);
        }
        return Some((0, i + 1));
    }
    let mut v: usize = (c0 as u32 - 48) as usize;
    let mut j = i + 1;
    proof {
        let ds = cs@.subrange(i as int, i + 1);
        assert(ds =~= seq![c0]);
        assert(ds.drop_last() =~= Seq::<char>::empty());
        assert(ds.last() == c0);
        assert(digits_value(Seq::<char>::empty()) == 0);
        assert(digits_value(ds) == c0 as int - 48);
        assert(all_digits(ds));
    }
    while j < n && '0' <= cs[j] && cs[j] <= '9'
        invariant
            i < j <= n,
            n == cs@.len(),
            cs@[i as int] == c0,
            '0' <= c0 <= '9',
            c0 != '0',
            all_digits(cs@.subrange(i as int, j as int)),
            v == digits_value(cs@.subrange(i as int, j as int)),
            spec_parse_usize(cs@, i as int) == spec_scan_usize(cs@, j as int, v as int),
        decreases n - j,
    {
        let ghost pre = cs@.subrange(i as int, j as int);
        let ghost cur = cs@.subrange(i as int, j + 1);
        proof {
            assert(cur.drop_last() =~= pre);
        }
        let d = (cs[j] as u32 - 48) as usize;
        let next = match v.checked_mul(10) {
            Some(a) => a.checked_add(d),
            None => None,
        };
        match next {
            Some(a) => {
                v = a;
            },
            None => {
                return None;
            },
        }
        j = j + 1;
    }
    proof {
        let ds = cs@.subrange(i as int, j as int);
        assert(ds[0] == c0);
        lemma_nat_string_canonical(ds);
    }
    Some((v, j))
}

/// One more entry extends the override body by a separator and the entry.
proof fn lemma_styles_body_push(m: Seq<(usize, usize)>, k: usize, v: usize, j: int)
    requires
        0 <= j <= m.len(),
    ensures
        spec_styles_body(m.push((k, v)), j) == spec_styles_body(m, j) + (if m.len() > 0 {
            seq![',']
        } else {
            Seq::<char>::empty()
        }) + spec_styles_entry(k, v),
    decreases m.len() - j,
{
    let m2 = m.push((k, v));
    let sep: Seq<char> = if m.len() > 0 {
        seq![',']
    } else {
        Seq::empty()
    };
    if j == m.len() {
        assert(spec_styles_body(m, j) =~= Seq::<char>::empty());
        if m.len() == 0 {
            assert(m2[j] == (k, v));
            assert(spec_styles_body(m2, j + 1) =~= Seq::<char>::empty());
            assert(spec_styles_body(m2, j) =~= spec_styles_entry(k, v));
            assert(spec_styles_body(m, j) + sep + spec_styles_entry(k, v) =~= spec_styles_entry(
                k,
                v,
            ));
        } else {
            assert(m2[j] == (k, v));
            assert(spec_styles_body(m2, j + 1) =~= Seq::<char>::empty());
            assert(spec_styles_body(m2, j) =~= seq![','] + spec_styles_entry(k, v));
            assert(spec_styles_body(m, j) + sep + spec_styles_entry(k, v) =~= seq![',']
                + spec_styles_entry(k, v));
        }
    } else {
        lemma_styles_body_push(m, k, v, j + 1);
        assert(m2[j] == m[j]);
        let sepj: Seq<char> = if j > 0 {
            seq![',']
        } else {
            Seq::empty()
        };
        assert(spec_styles_body(m2, j) == sepj + spec_styles_entry(m[j].0, m[j].1)
            + spec_styles_body(m2, j + 1));
        assert(sepj + spec_styles_entry(m[j].0, m[j].1) + (spec_styles_body(m, j + 1) + sep
            + spec_styles_entry(k, v)) =~= (sepj + spec_styles_entry(m[j].0, m[j].1)
            + spec_styles_body(m, j + 1)) + sep + spec_styles_entry(k, v));
    }
}

/// Parses the override entries at `i`, up to but not through the closing
/// brace. On success the consumed characters are exactly the canonical
/// body of the returned overrides, and no item index repeats.
fn parse_styles_body(cs: &Vec<char>, i: usize) -> (r: Option<(Vec<(usize, usize)>, usize)>)
    requires
        i <= cs@.len(),
    ensures
        match r {
            Some((m, j)) => spec_parse_styles(cs@, i as int) == Some((m@, j as int)) && i <= j
                <= cs@.len() && cs@.subrange(i as int, j as int) == spec_styles_body(m@, 0)
                && assoc_unique(m@),
            None => spec_parse_styles(cs@, i as int) is None,
        },
{
    let n = cs.len();
    let mut m: Vec<(usize, usize)> = Vec::new();
    let mut j = i;
    proof {
        assert(cs@.subrange(i as int, i as int) =~= spec_styles_body(m@, 0));
    }
    if j < n && cs[j] == '}' {
        return Some((m, j));
    }
    loop
        invariant
            i <= j <= n,
            n == cs@.len(),
            cs@.subrange(i as int, j as int) == spec_styles_body(m@, 0),
            assoc_unique(m@),
            spec_parse_styles(cs@, i as int) == spec_scan_styles(cs@, j as int, m@),
        decreases n - j,
    {
        let ghost consumed = cs@.subrange(i as int, j as int);
        let ghost m_old = m@;
        let mut at = j;
        if m.len() > 0 {
            if at >= n || cs[at] != ',' {
                return None;
            }
            at = at + 1;
        }
        let ghost sep_end = at;
        if at >= n || cs[at] != '"' {
            return None;
        }
        let (key, after_key) = match parse_usize(cs, at + 1) {
            Some(p) => p,
            None => {
                return None;
            },
        };
        if after_key >= n || cs[after_key] != '"' {
            return None;
        }
        if after_key + 1 >= n || cs[after_key + 1] != ':' {
            return None;
        }
        let (val, after_val) = match parse_usize(cs, after_key + 2) {
            Some(p) => p,
            None => {
                return None;
            },
        };

        // One override per item: a repeated index is malformed.
        let dup = {
            let mut found = false;
            let mut q: usize = 0;
            let nm = m.len();
            while q < nm
                invariant
                    q <= nm,
                    nm == m@.len(),
                    found == exists|x: int| 0 <= x < q && (#[trigger] m@[x]).0 == key,
                decreases nm - q,
            {
                if m[q].0 == key {
                    found = true;
                }
                q = q + 1;
            }
            found
        };
        if dup {
            proof {
                let x = choose|x: int| 0 <= x < m@.len() && (#[trigger] m@[x]).0 == key;
                lemma_assoc_lookup_some(m@, x);
            }
            return None;
        }
        proof {
            assert(forall|x: int| 0 <= x < m@.len() ==> (#[trigger] m@[x]).0 != key);
            crate::assoc::lemma_assoc_lookup_none(m@, key);
            lemma_assoc_push(m@, key, val);
            lemma_styles_body_push(m@, key, val, 0);
            assert(cs@.subrange(j as int, after_val as int) =~= (if m_old.len() > 0 {
                seq![',']
            } else {
                Seq::<char>::empty()
            }) + spec_styles_entry(key, val)) by {
                assert(cs@.subrange((at + 1) as int, after_key as int) == spec_nat_string(
                    key as nat,
                ));
                assert(cs@.subrange((after_key + 2) as int, after_val as int) == spec_nat_string(
                    val as nat,
                ));
            }
            assert(cs@.subrange(i as int, after_val as int) =~= consumed + cs@.subrange(
                j as int,
                after_val as int,
            ));
        }
        m.push((key, val));
        j = after_val;
        proof {
            assert(cs@.subrange(i as int, j as int) =~= spec_styles_body(m@, 0));
        }
        if j < n && cs[j] == '}' {
            return Some((m, j));
        }
        if j >= n {
            return None;
        }
    }
}

/// Parses one persisted record. On success the line is exactly the
/// canonical text of the returned record, and its override indices are
/// unique.
pub fn parse_record(line: &str) -> (r: Option<StyleRecord>)
    ensures
        match r {
            Some(rec) => spec_parse_record_text(line@) == Some((rec.command@, rec.styles@))
                && line@ == spec_record(rec.command@, rec.styles@) && assoc_unique(rec.styles@),
            None => spec_parse_record_text(line@) is None && (forall|
                c: Seq<char>,
                m: Seq<(usize, usize)>,
            |
                assoc_unique(m) ==> line@ != spec_record(c, m)),
        },
{
    let cs = str_to_chars(line);
    let i1 = match expect(&cs, 0, "{\"command\":") {
        Some(j) => j,
        None => {
            proof {
                lemma_rejected_line_is_no_record(line@);
            }
            return None;
        },
    };
    let (command, i2) = match parse_quoted(&cs, i1) {
        Some(p) => p,
        None => {
            proof {
                lemma_rejected_line_is_no_record(line@);
            }
            return None;
        },
    };
    let i3 = match expect(&cs, i2, ",\"styles\":{") {
        Some(j) => j,
        None => {
            proof {
                lemma_rejected_line_is_no_record(line@);
            }
            return None;
        },
    };
    let (styles, i4) = match parse_styles_body(&cs, i3) {
        Some(p) => p,
        None => {
            proof {
                lemma_rejected_line_is_no_record(line@);
            }
            return None;
        },
    };
    let i5 = match expect(&cs, i4, "}}") {
        Some(j) => j,
        None => {
            proof {
                lemma_rejected_line_is_no_record(line@);
            }
            return None;
        },
    };
    if i5 != cs.len() {
        proof {
            lemma_rejected_line_is_no_record(line@);
        }
        return None;
    }
    proof {
        assert(line@ =~= cs@.subrange(0, i1 as int) + cs@.subrange(i1 as int, i2 as int)
            + cs@.subrange(i2 as int, i3 as int) + cs@.subrange(i3 as int, i4 as int)
            + cs@.subrange(i4 as int, i5 as int));
        assert(line@ =~= spec_record(command@, styles@));
    }
    Some(StyleRecord { command, styles })
}

/// The lines of `s` from position `i` on, with `cur` the line being read:
/// split on newline characters, the final line unterminated.
pub open spec fn spec_lines_from(s: Seq<char>, i: int, cur: Seq<char>) -> Seq<Seq<char>>
    decreases s.len() - i,
{
    if !(0 <= i < s.len()) {
        seq![cur]
    } else if s[i] == '\n' {
        seq![cur] + spec_lines_from(s, i + 1, Seq::empty())
    } else {
        spec_lines_from(s, i + 1, cur.push(s[i]))
    }
}

/// The lines of a text, split on newlines; one empty line for an empty
/// text, and an empty final line after a trailing newline.
pub open spec fn spec_lines(s: Seq<char>) -> Seq<Seq<char>> {
    spec_lines_from(s, 0, Seq::empty())
}

/// Splits a text into its lines.
pub fn split_lines(s: &str) -> (r: Vec<String>)
    ensures
        r@.map_values(|l: String| l@) == spec_lines(s@),
{
    let n = s.unicode_len();
    let mut r: Vec<String> = Vec::new();
    let mut cur = String::new();
    let mut i: usize = 0;
    while i < n
        invariant
            i <= n,
            n == s@.len(),
            spec_lines(s@) == r@.map_values(|l: String| l@) + spec_lines_from(
                s@,
                i as int,
                cur@,
            ),
        decreases n - i,
    {
        let c = s.get_char(i);
        if c == '\n' {
            let ghost rv = r@;
            let ghost cv = cur@;
            r.push(cur);
            proof {
                assert(r@.map_values(|l: String| l@) =~= rv.map_values(|l: String| l@)
                    + seq![cv]);
                assert(rv.map_values(|l: String| l@) + (seq![cv] + spec_lines_from(
                    s@,
                    i + 1,
                    Seq::<char>::empty(),
                )) =~= (rv.map_values(|l: String| l@) + seq![cv]) + spec_lines_from(
                    s@,
                    i + 1,
                    Seq::<char>::empty(),
                ));
            }
            cur = String::new();
        } else {
            push_char(&mut cur, c);
        }
        i = i + 1;
    }
    let ghost rv = r@;
    let ghost cv = cur@;
    r.push(cur);
    proof {
        assert(r@.map_values(|l: String| l@) =~= rv.map_values(|l: String| l@) + seq![cv]);
        assert(r@.map_values(|l: String| l@) =~= spec_lines(s@));
    }
    r
}

/// The per-item overrides with each style index folded into the registry.
pub open spec fn spec_reduce(m: Seq<(usize, usize)>) -> Seq<(usize, usize)> {
    m.map_values(|p: (usize, usize)| (p.0, ((p.1 as int % NUM_STYLES as int) as usize)))
}

/// Folds each loaded style index into the registry.
fn reduce_styles(m: &Vec<(usize, usize)>) -> (r: Vec<(usize, usize)>)
    ensures
        r@ == spec_reduce(m@),
{
    let n = m.len();
    let mut r: Vec<(usize, usize)> = Vec::new();
    let mut k: usize = 0;
    while k < n
        invariant
            k <= n,
            n == m@.len(),
            r@.len() == k,
            forall|j: int| 0 <= j < k ==> #[trigger] r@[j] == (
                m@[j].0,
                ((m@[j].1 as int % NUM_STYLES as int) as usize),
            ),
        decreases n - k,
    {
        r.push((m[k].0, m[k].1 % NUM_STYLES));
        k = k + 1;
    }
    proof {
        assert(r@ =~= spec_reduce(m@));
    }
    r
}

/// Whether two texts are equal.
fn str_eq(a: &str, b: &str) -> (r: bool)
    ensures
        r == (a@ == b@),
{
    let aa: String = a.to_owned();
    let bb: String = b.to_owned();
    aa.eq(&bb)
}

/// What loading yields from the lines of a style file, from line `li` on,
/// with `found` the override table of the last record seen so far whose
/// command equals `key`: blank lines are skipped; the first remaining
/// non-blank line that is no record fails with that line's position; else
/// the final table, folded into the registry, or nothing where no record
/// matched.
pub open spec fn spec_load(
    lines: Seq<Seq<char>>,
    li: int,
    found: Option<Seq<(usize, usize)>>,
    key: Seq<char>,
) -> Result<Seq<(usize, usize)>, int>
    decreases lines.len() - li,
{
    if !(0 <= li < lines.len()) {
        Ok(
            match found {
                Some(m) => spec_reduce(m),
                None => Seq::empty(),
            },
        )
    } else {
        let t = spec_trim(lines[li]);
        if t.len() == 0 {
            spec_load(lines, li + 1, found, key)
        } else {
            match spec_parse_record_text(t) {
                None => Err(li),
                Some((c, m)) => spec_load(
                    lines,
                    li + 1,
                    if c == key {
                        Some(m)
                    } else {
                        found
                    },
                    key,
                ),
            }
        }
    }
}

/// Loads the overrides persisted for exactly the command `key` from the
/// style file's text: exactly the override table of the last record whose
/// command matches, with each style index folded into the registry, or
/// nothing where no record matches. The first line that is neither blank
/// nor a record is a hard error naming that line.
pub fn load_style_map(content: &str, key: &str) -> (r: Result<
    Vec<(usize, usize)>,
    PersistenceError,
>)
    ensures
        match r {
            Ok(styles) => {
                &&& spec_load(spec_lines(content@), 0, None, key@) == Ok::<
                    Seq<(usize, usize)>,
                    int,
                >(styles@)
                &&& assoc_unique(styles@)
                &&& forall|j: int|
                    0 <= j < styles@.len() ==> (#[trigger] styles@[j]).1 < NUM_STYLES
            },
            Err(e) => e matches PersistenceError::Malformed { line } && spec_load(
                spec_lines(content@),
                0,
                None,
                key@,
            ) == Err::<Seq<(usize, usize)>, int>(line as int),
        },
{
    let lines = split_lines(content);
    let n = lines.len();
    let ghost ls = spec_lines(content@);
    let mut found: Option<Vec<(usize, usize)>> = None;
    let ghost mut acc: Option<Seq<(usize, usize)>> = None;
    let mut li: usize = 0;
    while li < n
        invariant
            li <= n,
            n == lines@.len(),
            ls == spec_lines(content@),
            lines@.map_values(|l: String| l@) == ls,
            match found {
                Some(v) => acc == Some(v@) && assoc_unique(v@),
                None => acc is None,
            },
            spec_load(ls, 0, None, key@) == spec_load(ls, li as int, acc, key@),
        decreases n - li,
    {
        let trimmed = trim_str(lines[li].as_str());
        proof {
            assert(lines@[li as int]@ == ls[li as int]);
        }
        if !trimmed.as_str().is_empty() {
            match parse_record(trimmed.as_str()) {
                None => {
                    return Err(PersistenceError::Malformed { line: li });
                },
                Some(rec) => {
                    if str_eq(rec.command.as_str(), key) {
                        proof {
                            acc = Some(rec.styles@);
                        }
                        found = Some(rec.styles);
                    }
                },
            }
        }
        li = li + 1;
    }
    match found {
        Some(v) => {
            let reduced = reduce_styles(&v);
            proof {
                assert(forall|j: int|
                    0 <= j < reduced@.len() ==> (#[trigger] reduced@[j]).0 == v@[j].0);
                assert forall|j: int|
                    0 <= j < reduced@.len() implies (#[trigger] reduced@[j]).1 < NUM_STYLES by {
                    vstd::arithmetic::div_mod::lemma_mod_bound(v@[j].1 as int, NUM_STYLES as int);
                }
                assert(assoc_unique(reduced@));
            }
            Ok(reduced)
        },
        None => {
            let empty: Vec<(usize, usize)> = Vec::new();
            proof {
                assert(empty@ =~= Seq::<(usize, usize)>::empty());
            }
            Ok(empty)
        },
    }
}

/// The text of a whole style file: each record's canonical line, newline
/// terminated, from record `j` on.
pub open spec fn spec_style_file_from(
    rs: Seq<(Seq<char>, Seq<(usize, usize)>)>,
    j: int,
) -> Seq<char>
    decreases rs.len() - j,
{
    if !(0 <= j < rs.len()) {
        Seq::empty()
    } else {
        spec_record(rs[j].0, rs[j].1) + seq!['\n'] + spec_style_file_from(rs, j + 1)
    }
}

/// The text of a whole style file.
pub open spec fn spec_style_file(rs: Seq<(Seq<char>, Seq<(usize, usize)>)>) -> Seq<char> {
    spec_style_file_from(rs, 0)
}

/// A copy of an override table.
fn clone_pairs(v: &Vec<(usize, usize)>) -> (r: Vec<(usize, usize)>)
    ensures
        r@ == v@,
{
    let n = v.len();
    let mut r: Vec<(usize, usize)> = Vec::new();
    let mut k: usize = 0;
    while k < n
        invariant
            k <= n,
            n == v@.len(),
            r@ == v@.subrange(0, k as int),
        decreases n - k,
    {
        r.push(v[k]);
        proof {
            assert(r@ =~= v@.subrange(0, k + 1));
        }
        k = k + 1;
    }
    proof {
        assert(v@.subrange(0, n as int) =~= v@);
    }
    r
}

/// What scanning a style file's lines keeps when the command `key` is
/// being rewritten, from line `li` on: blank lines are skipped; the first
/// non-blank line that is no record fails with that line's position; every
/// record of another command is kept, in file order; records of `key` are
/// dropped.
pub open spec fn spec_save_scan(
    lines: Seq<Seq<char>>,
    li: int,
    kept: Seq<(Seq<char>, Seq<(usize, usize)>)>,
    key: Seq<char>,
) -> Result<Seq<(Seq<char>, Seq<(usize, usize)>)>, int>
    decreases lines.len() - li,
{
    if !(0 <= li < lines.len()) {
        Ok(kept)
    } else {
        let t = spec_trim(lines[li]);
        if t.len() == 0 {
            spec_save_scan(lines, li + 1, kept, key)
        } else {
            match spec_parse_record_text(t) {
                None => Err(li),
                Some((c, m)) => spec_save_scan(
                    lines,
                    li + 1,
                    if c == key {
                        kept
                    } else {
                        kept.push((c, m))
                    },
                    key,
                ),
            }
        }
    }
}

/// Rewrites the style file's text with the overrides of the command `key`
/// replaced by `styles`: every record of another command is kept verbatim
/// in file order, every record of `key` is dropped, and one record for
/// `key` with exactly the given overrides ends the file. The first line
/// that is neither blank nor a record is a hard error naming that line.
pub fn save_style_map(content: &str, key: &str, styles: &Vec<(usize, usize)>) -> (r: Result<
    String,
    PersistenceError,
>)
    ensures
        match r {
            Ok(out) => match spec_save_scan(spec_lines(content@), 0, Seq::empty(), key@) {
                Ok(kept) => out@ == spec_style_file(kept.push((key@, styles@))),
                Err(_) => false,
            },
            Err(e) => e matches PersistenceError::Malformed { line } && spec_save_scan(
                spec_lines(content@),
                0,
                Seq::empty(),
                key@,
            ) == Err::<Seq<(Seq<char>, Seq<(usize, usize)>)>, int>(line as int),
        },
{
    let lines = split_lines(content);
    let n = lines.len();
    let ghost ls = spec_lines(content@);
    let mut recs: Vec<StyleRecord> = Vec::new();
    let mut li: usize = 0;
    proof {
        assert(recs@.map_values(|x: StyleRecord| (x.command@, x.styles@)) =~= Seq::<
            (Seq<char>, Seq<(usize, usize)>),
        >::empty());
    }
    while li < n
        invariant
            li <= n,
            n == lines@.len(),
            ls == spec_lines(content@),
            lines@.map_values(|l: String| l@) == ls,
            spec_save_scan(ls, 0, Seq::empty(), key@) == spec_save_scan(
                ls,
                li as int,
                recs@.map_values(|x: StyleRecord| (x.command@, x.styles@)),
                key@,
            ),
        decreases n - li,
    {
        let trimmed = trim_str(lines[li].as_str());
        proof {
            assert(lines@[li as int]@ == ls[li as int]);
        }
        if !trimmed.as_str().is_empty() {
            match parse_record(trimmed.as_str()) {
                None => {
                    return Err(PersistenceError::Malformed { line: li });
                },
                Some(rec) => {
                    if !str_eq(rec.command.as_str(), key) {
                        let ghost rv = recs@.map_values(|x: StyleRecord| (x.command@, x.styles@));
                        let ghost c = rec.command@;
                        let ghost m = rec.styles@;
                        recs.push(rec);
                        proof {
                            assert(recs@.map_values(|x: StyleRecord| (x.command@, x.styles@))
                                =~= rv.push((c, m)));
                        }
                    }
                },
            }
        }
        li = li + 1;
    }
    let ghost kept = recs@.map_values(|x: StyleRecord| (x.command@, x.styles@));
    recs.push(StyleRecord { command: key.to_owned(), styles: clone_pairs(styles) });
    let ghost rs = recs@.map_values(|x: StyleRecord| (x.command@, x.styles@));
    proof {
        assert(rs =~= kept.push((key@, styles@)));
    }

    let m = recs.len();
    let mut out = String::new();
    let mut j: usize = 0;
    proof {
        assert(out@ + spec_style_file_from(rs, 0) =~= spec_style_file_from(rs, 0));
    }
    while j < m
        invariant
            j <= m,
            m == recs@.len(),
            rs == recs@.map_values(|x: StyleRecord| (x.command@, x.styles@)),
            spec_style_file(rs) == out@ + spec_style_file_from(rs, j as int),
        decreases m - j,
    {
        let ghost prev = out@;
        let line = serialize_record(&recs[j]);
        out.append(line.as_str());
        push_char(&mut out, '\n');
        proof {
            assert(rs[j as int] == (recs@[j as int].command@, recs@[j as int].styles@));
            assert(out@ =~= prev + spec_record(rs[j as int].0, rs[j as int].1) + seq!['\n']);
            assert(prev + (spec_record(rs[j as int].0, rs[j as int].1) + seq!['\n']
                + spec_style_file_from(rs, j + 1)) =~= (prev + spec_record(
                rs[j as int].0,
                rs[j as int].1,
            ) + seq!['\n']) + spec_style_file_from(rs, j + 1));
        }
        j = j + 1;
    }
    Ok(out)
}

/// Reading back the hexadecimal digit of a value recovers the value.
proof fn lemma_hex_roundtrip(d: int)
    requires
        0 <= d < 16,
    ensures
        spec_hex_val(hex_digit(d)) == Some(d),
{
}

/// The scanner reads back exactly what the escaper wrote: on input holding
/// the escaped tail of `c` from position `x` and then a closing quote, it
/// decodes the tail and stops after the quote.
proof fn lemma_scan_quoted_complete(cs: Seq<char>, k: int, done: Seq<char>, c: Seq<char>, x: int)
    requires
        0 <= x <= c.len(),
        0 <= k,
        k + spec_escape_from(c, x).len() < cs.len(),
        forall|q: int|
            0 <= q < spec_escape_from(c, x).len() ==> cs[k + q] == spec_escape_from(c, x)[q],
        cs[k + spec_escape_from(c, x).len()] == '"',
    ensures
        spec_scan_quoted(cs, k, done) == Some(
            (done + c.skip(x), k + spec_escape_from(c, x).len() + 1),
        ),
    decreases c.len() - x,
{
    let tail = spec_escape_from(c, x);
    if x == c.len() {
        assert(tail =~= Seq::<char>::empty());
        assert(cs[k] == '"');
        assert(done + c.skip(x) =~= done);
    } else {
        let ch = c[x];
        let e = spec_escape_char(ch);
        let rest = spec_escape_from(c, x + 1);
        assert(tail == e + rest);
        assert forall|q: int| 0 <= q < e.len() implies cs[k + q] == e[q] by {
            assert((e + rest)[q] == e[q]);
            assert(cs[k + q] == tail[q]);
        }
        assert forall|q: int| 0 <= q < rest.len() implies cs[k + e.len() + q] == rest[q] by {
            assert((e + rest)[e.len() + q] == rest[q]);
            assert(cs[k + (e.len() + q)] == tail[e.len() + q]);
        }
        assert(cs[k + tail.len()] == '"');
        assert(k + e.len() + rest.len() == k + tail.len());
        assert(done.push(ch) + c.skip(x + 1) =~= done + c.skip(x));
        if ch == '"' {
            assert(cs[k] == '\\' && cs[k + 1] == '"');
            lemma_scan_quoted_complete(cs, k + 2, done.push(ch), c, x + 1);
        } else if ch == '\\' {
            assert(cs[k] == '\\' && cs[k + 1] == '\\');
            lemma_scan_quoted_complete(cs, k + 2, done.push(ch), c, x + 1);
        } else if (ch as int) < 32 {
            lemma_char_nonneg(ch);
            assert(cs[k + 0] == e[0] && cs[k + 1] == e[1] && cs[k + 2] == e[2] && cs[k + 3]
                == e[3] && cs[k + 4] == e[4] && cs[k + 5] == e[5]);
            assert(cs[k] == '\\' && cs[k + 1] == 'u' && cs[k + 2] == '0' && cs[k + 3] == '0');
            assert(cs[k + 4] == hex_digit(ch as int / 16));
            assert(cs[k + 5] == hex_digit(ch as int % 16));
            lemma_hex_roundtrip(ch as int / 16);
            lemma_hex_roundtrip(ch as int % 16);
            assert(16 * (ch as int / 16) + ch as int % 16 == ch as int);
            assert((((ch as int) as u8) as char) == ch);
            lemma_scan_quoted_complete(cs, k + 6, done.push(ch), c, x + 1);
        } else {
            assert(e =~= seq![ch]);
            assert(cs[k + 0] == e[0]);
            assert(cs[k] == ch);
            assert(!((ch as int) < 32));
            lemma_scan_quoted_complete(cs, k + 1, done.push(ch), c, x + 1);
        }
    }
}

/// Parsing a quoted text written by the escaper recovers the text.
proof fn lemma_parse_quoted_complete(cs: Seq<char>, i: int, c: Seq<char>)
    requires
        0 <= i,
        i + spec_quoted(c).len() <= cs.len(),
        forall|q: int| 0 <= q < spec_quoted(c).len() ==> cs[i + q] == spec_quoted(c)[q],
    ensures
        spec_parse_quoted(cs, i) == Some((c, i + spec_quoted(c).len())),
{
    let qt = spec_quoted(c);
    assert(qt[0] == '"');
    assert(cs[i] == '"');
    assert(forall|q: int| 0 <= q < spec_escape(c).len() ==> cs[i + 1 + q] == spec_escape(c)[q])
        by {
        assert(forall|q: int| 0 <= q < spec_escape(c).len() ==> qt[1 + q] == spec_escape(c)[q]);
    }
    assert(cs[i + 1 + spec_escape(c).len()] == '"') by {
        assert(qt[1 + spec_escape(c).len() as int] == '"');
    }
    assert(spec_escape_from(c, 0) == spec_escape(c));
    lemma_scan_quoted_complete(cs, i + 1, Seq::empty(), c, 0);
    assert(Seq::<char>::empty() + c.skip(0) =~= c);
}

/// A character's code is never negative.
proof fn lemma_char_nonneg(c: char)
    ensures
        0 <= c as int,
{
}

/// The decimal text of a value is all digits, never empty, and never
/// starts with a zero unless it is the single zero; and it reads back to
/// the value it was written from.
proof fn lemma_nat_string_digits(v: nat)
    ensures
        all_digits(spec_nat_string(v)),
        spec_nat_string(v).len() >= 1,
        v >= 1 ==> spec_nat_string(v)[0] != '0',
        digits_value(spec_nat_string(v)) == v,
    decreases v,
{
    let ns = spec_nat_string(v);
    if v < 10 {
        assert(ns =~= seq![digit_char(v as int)]);
        assert(is_digit(digit_char(v as int)));
        assert(ns.drop_last() =~= Seq::<char>::empty());
        assert(digits_value(Seq::<char>::empty()) == 0);
        assert(digits_value(ns) == digit_char(v as int) as int - 48);
    } else {
        lemma_nat_string_digits(v / 10);
        let p = spec_nat_string((v / 10) as nat);
        assert(ns == p.push(digit_char((v % 10) as int)));
        assert(ns.drop_last() =~= p);
        assert(ns.last() == digit_char((v % 10) as int));
        assert(is_digit(ns.last()));
        assert(forall|q: int| 0 <= q < ns.len() ==> #[trigger] ns[q] == if q < p.len() {
            p[q]
        } else {
            digit_char((v % 10) as int)
        });
        assert(all_digits(ns));
        assert(ns[0] == p[0]);
        vstd::arithmetic::div_mod::lemma_fundamental_div_mod(v as int, 10);
        assert(digits_value(ns) == digits_value(p) * 10 + (ns.last() as int - 48));
    }
}

/// The digit scanner reads back a digit run exactly: on input holding the
/// digits of `ds` from position `x` at `k`, followed by a non-digit or the
/// end, it folds them onto `acc` and stops after them.
proof fn lemma_scan_usize_digits(cs: Seq<char>, k: int, ds: Seq<char>, x: int, acc: int)
    requires
        0 <= x <= ds.len(),
        0 <= k,
        all_digits(ds),
        k + (ds.len() - x) <= cs.len(),
        forall|q: int| x <= q < ds.len() ==> cs[k + (q - x)] == ds[q],
        k + (ds.len() - x) == cs.len() || !is_digit(cs[k + (ds.len() - x)]),
        acc == digits_value(ds.take(x)),
        digits_value(ds) <= usize::MAX,
    ensures
        spec_scan_usize(cs, k, acc) == Some((digits_value(ds), k + (ds.len() - x))),
    decreases ds.len() - x,
{
    if x == ds.len() {
        assert(ds.take(x) =~= ds);
    } else {
        assert(cs[k + 0] == ds[x]);
        assert(cs[k] == ds[x]);
        assert(is_digit(ds[x]));
        let cur = ds.take(x + 1);
        assert(cur.drop_last() =~= ds.take(x));
        assert(cur.last() == ds[x]);
        assert(all_digits(cur)) by {
            assert(forall|q: int| 0 <= q < cur.len() ==> #[trigger] cur[q] == ds[q]);
        }
        let a2 = acc * 10 + (ds[x] as int - 48);
        assert(a2 == digits_value(cur));
        assert(a2 <= usize::MAX) by {
            crate::dwatch::lemma_digits_value_prefix_mono(ds, x + 1);
            assert(ds.subrange(0, x + 1) =~= cur);
        }
        assert(forall|q: int| x + 1 <= q < ds.len() ==> cs[(k + 1) + (q - (x + 1))] == ds[q]) by {
            assert(forall|q: int| x <= q < ds.len() ==> cs[k + (q - x)] == ds[q]);
        }
        lemma_scan_usize_digits(cs, k + 1, ds, x + 1, a2);
    }
}

/// Parsing a canonical decimal text recovers the value: on input holding
/// the text of `v` at `i`, followed by a non-digit or the end, the index
/// parser yields `v` and stops after the text.
proof fn lemma_parse_usize_complete(cs: Seq<char>, i: int, v: nat)
    requires
        0 <= i,
        v <= usize::MAX,
        i + spec_nat_string(v).len() <= cs.len(),
        forall|q: int| 0 <= q < spec_nat_string(v).len() ==> cs[i + q] == spec_nat_string(v)[q],
        i + spec_nat_string(v).len() == cs.len() || !is_digit(
            cs[i + spec_nat_string(v).len()],
        ),
    ensures
        spec_parse_usize(cs, i) == Some((v as int, i + spec_nat_string(v).len())),
{
    let ns = spec_nat_string(v);
    lemma_nat_string_digits(v);
    assert(cs[i + 0] == ns[0]);
    assert(cs[i] == ns[0]);
    assert(is_digit(cs[i]));
    if v == 0 {
        assert(ns =~= seq![digit_char(0)]);
        assert(cs[i] == '0');
    } else {
        assert(cs[i] != '0');
        assert(cs[i] as int - 48 == ns[0] as int - 48);
        assert(forall|q: int| 1 <= q < ns.len() ==> cs[(i + 1) + (q - 1)] == ns[q]) by {
            assert(forall|q: int| 0 <= q < ns.len() ==> cs[i + q] == ns[q]);
        }
        assert(ns[0] as int - 48 == digits_value(ns.take(1))) by {
            let one = ns.take(1);
            assert(one =~= seq![ns[0]]);
            assert(one.drop_last() =~= Seq::<char>::empty());
            assert(one.last() == ns[0]);
            assert(digits_value(Seq::<char>::empty()) == 0);
        }
        lemma_scan_usize_digits(cs, i + 1, ns, 1, ns[0] as int - 48);
    }
}

/// The entry scanner reads back a canonical override body exactly: on
/// input holding the entries of `m` from entry `x` at `j`, followed by the
/// closing brace, it recovers the remaining entries and stops at the
/// brace.
proof fn lemma_scan_styles_complete(cs: Seq<char>, j: int, m: Seq<(usize, usize)>, x: int)
    requires
        0 <= x < m.len(),
        0 <= j,
        assoc_unique(m),
        j + spec_styles_body(m, x).len() < cs.len(),
        forall|q: int|
            0 <= q < spec_styles_body(m, x).len() ==> cs[j + q] == spec_styles_body(m, x)[q],
        cs[j + spec_styles_body(m, x).len()] == '}',
    ensures
        spec_scan_styles(cs, j, m.take(x)) == Some((m, j + spec_styles_body(m, x).len())),
    decreases m.len() - x,
{
    let kk = m[x].0;
    let vv = m[x].1;
    let sep: Seq<char> = if x > 0 {
        seq![',']
    } else {
        Seq::empty()
    };
    let nsk = spec_nat_string(kk as nat);
    let nsv = spec_nat_string(vv as nat);
    let entry = spec_styles_entry(kk, vv);
    let rest = spec_styles_body(m, x + 1);
    let b = spec_styles_body(m, x);
    assert(b == sep + entry + rest);
    assert(entry == seq!['"'] + nsk + seq!['"', ':'] + nsv);
    let sl: int = sep.len() as int;
    let at = j + sl;
    assert(m.take(x).len() == x);

    assert forall|q: int| 0 <= q < entry.len() implies cs[at + q] == entry[q] by {
        assert((sep + entry)[sl + q] == entry[q]);
        assert((sep + entry + rest)[sl + q] == (sep + entry)[sl + q]);
        assert(cs[j + (sl + q)] == b[sl + q]);
    }
    if x > 0 {
        assert(b[0] == ',') by {
            assert((sep + entry)[0] == sep[0]);
            assert((sep + entry + rest)[0] == (sep + entry)[0]);
        }
        assert(cs[j + 0] == b[0]);
        assert(cs[j] == ',');
    }
    assert(cs[at + 0] == entry[0]);
    assert(entry[0] == '"') by {
        assert((seq!['"'] + nsk)[0] == '"');
        assert((seq!['"'] + nsk + seq!['"', ':'])[0] == (seq!['"'] + nsk)[0]);
    }
    assert(cs[at] == '"');

    let nkl: int = nsk.len() as int;
    let nvl: int = nsv.len() as int;
    assert forall|q: int| 0 <= q < nkl implies cs[(at + 1) + q] == nsk[q] by {
        assert((seq!['"'] + nsk)[1 + q] == nsk[q]);
        assert((seq!['"'] + nsk + seq!['"', ':'])[1 + q] == (seq!['"'] + nsk)[1 + q]);
        assert(entry[1 + q] == (seq!['"'] + nsk + seq!['"', ':'])[1 + q]);
        assert(cs[at + (1 + q)] == entry[1 + q]);
    }
    let after_key = at + 1 + nkl;
    assert(cs[after_key] == '"') by {
        assert((seq!['"'] + nsk + seq!['"', ':'])[1 + nkl] == '"');
        assert(entry[1 + nkl] == '"');
        assert(cs[at + (1 + nkl)] == entry[1 + nkl]);
    }
    assert(cs[after_key + 1] == ':') by {
        assert((seq!['"'] + nsk + seq!['"', ':'])[1 + nkl + 1] == ':');
        assert(entry[1 + nkl + 1] == ':');
        assert(cs[at + (1 + nkl + 1)] == entry[1 + nkl + 1]);
    }
    assert forall|q: int| 0 <= q < nvl implies cs[(after_key + 2) + q] == nsv[q] by {
        assert(entry[1 + nkl + 2 + q] == nsv[q]);
        assert(cs[at + (1 + nkl + 2 + q)] == entry[1 + nkl + 2 + q]);
    }
    let after_val = after_key + 2 + nvl;
    assert(entry.len() == 3 + nkl + nvl);
    assert(after_val == at + entry.len());
    assert(b.len() == sl + entry.len() + rest.len());

    // The character after each digit run is no digit.
    if x + 1 == m.len() {
        assert(rest =~= Seq::<char>::empty());
        assert(after_val == j + b.len());
        assert(cs[after_val] == '}');
    } else {
        assert(rest[0] == ',') by {
            let sep2: Seq<char> = seq![','];
            assert(rest == sep2 + spec_styles_entry(m[x + 1].0, m[x + 1].1) + spec_styles_body(
                m,
                x + 2,
            ));
            assert((sep2 + spec_styles_entry(m[x + 1].0, m[x + 1].1))[0] == ',');
            assert((sep2 + spec_styles_entry(m[x + 1].0, m[x + 1].1) + spec_styles_body(m, x + 2))[0]
                == (sep2 + spec_styles_entry(m[x + 1].0, m[x + 1].1))[0]);
        }
        assert(cs[after_val] == ',') by {
            assert((sep + entry + rest)[sl + entry.len()] == rest[0]);
            assert(cs[j + (sl + entry.len() as int)] == b[sl + entry.len() as int]);
        }
    }

    lemma_nat_string_digits(kk as nat);
    lemma_nat_string_digits(vv as nat);
    lemma_parse_usize_complete(cs, at + 1, kk as nat);
    lemma_parse_usize_complete(cs, after_key + 2, vv as nat);

    assert(assoc_lookup(m.take(x), kk) is None) by {
        assert(forall|q: int| 0 <= q < x ==> (#[trigger] m.take(x)[q]).0 != kk);
        crate::assoc::lemma_assoc_lookup_none(m.take(x), kk);
    }
    assert(m.take(x).push((kk, vv)) =~= m.take(x + 1));

    if x + 1 == m.len() {
        assert(m.take(x + 1) =~= m);
    } else {
        assert(cs[after_val] != '}');
        assert forall|q: int| 0 <= q < rest.len() implies cs[after_val + q] == rest[q] by {
            assert((sep + entry + rest)[sl + entry.len() + q] == rest[q]);
            assert(cs[j + (sl + entry.len() + q)] == b[sl + entry.len() + q]);
        }
        assert(after_val + rest.len() == j + b.len());
        assert(cs[after_val + rest.len()] == '}');
        lemma_scan_styles_complete(cs, after_val, m, x + 1);
    }
}

/// Law: the parser accepts every canonical record text and recovers the
/// record it was written from: reading back what the serializer wrote is
/// total and exact.
pub proof fn lemma_parse_record_complete(c: Seq<char>, m: Seq<(usize, usize)>)
    requires
        assoc_unique(m),
    ensures
        spec_parse_record_text(spec_record(c, m)) == Some((c, m)),
{
    let line = spec_record(c, m);
    let p1 = "{\"command\":"@;
    let p2 = ",\"styles\":{"@;
    let p3 = "}}"@;
    reveal_strlit("{\"command\":");
    reveal_strlit(",\"styles\":{");
    reveal_strlit("}}");
    let qt = spec_quoted(c);
    let b = spec_styles_body(m, 0);
    assert(line == p1 + qt + p2 + b + p3);
    let i1 = p1.len() as int;
    let i2 = i1 + qt.len() as int;
    let i3 = i2 + p2.len() as int;
    let i4 = i3 + b.len() as int;
    let i5 = i4 + 2;
    assert(line.len() == i5);

    assert(spec_expect(line, 0, p1) == Some(i1)) by {
        assert(line.subrange(0, i1) =~= p1);
    }
    assert forall|q: int| 0 <= q < qt.len() implies line[i1 + q] == qt[q] by {
        assert((p1 + qt)[i1 + q] == qt[q]);
        assert((p1 + qt + p2)[i1 + q] == (p1 + qt)[i1 + q]);
        assert((p1 + qt + p2 + b)[i1 + q] == (p1 + qt + p2)[i1 + q]);
        assert(line[i1 + q] == (p1 + qt + p2 + b)[i1 + q]);
    }
    lemma_parse_quoted_complete(line, i1, c);
    assert(spec_parse_quoted(line, i1) == Some((c, i2)));

    assert(spec_expect(line, i2, p2) == Some(i3)) by {
        assert(line.subrange(i2, i3) =~= p2);
    }

    assert(p3[0] == '}' && p3[1] == '}');
    if m.len() == 0 {
        assert(b =~= Seq::<char>::empty());
        assert(i3 == i4);
        assert(line[i3] == '}') by {
            assert(line[i4 + 0] == p3[0]);
        }
        assert(spec_parse_styles(line, i3) == Some((Seq::<(usize, usize)>::empty(), i3)));
        assert(Seq::<(usize, usize)>::empty() =~= m);
    } else {
        assert forall|q: int| 0 <= q < b.len() implies line[i3 + q] == b[q] by {
            assert((p1 + qt + p2 + b)[i3 + q] == b[q]);
            assert(line[i3 + q] == (p1 + qt + p2 + b)[i3 + q]);
        }
        assert(line[i4] == '}') by {
            assert(line[i4 + 0] == p3[0]);
        }
        assert(b[0] == '"') by {
            let entry = spec_styles_entry(m[0].0, m[0].1);
            let nsk = spec_nat_string(m[0].0 as nat);
            assert(b == Seq::<char>::empty() + entry + spec_styles_body(m, 1));
            assert(entry[0] == '"') by {
                assert((seq!['"'] + nsk)[0] == '"');
                assert((seq!['"'] + nsk + seq!['"', ':'])[0] == (seq!['"'] + nsk)[0]);
            }
            assert((Seq::<char>::empty() + entry)[0] == entry[0]);
            assert((Seq::<char>::empty() + entry + spec_styles_body(m, 1))[0] == (Seq::<
                char,
            >::empty() + entry)[0]);
        }
        assert(line[i3] == '"');
        assert(line[i3] != '}');
        lemma_scan_styles_complete(line, i3, m, 0);
        assert(m.take(0) =~= Seq::<(usize, usize)>::empty());
        assert(spec_parse_styles(line, i3) == Some((m, i4)));
    }

    assert(spec_expect(line, i4, p3) == Some(i5)) by {
        assert(line.subrange(i4, i5) =~= p3);
    }
}

/// Law: a line that the parser rejects is the canonical text of no record.
pub proof fn lemma_rejected_line_is_no_record(line: Seq<char>)
    requires
        spec_parse_record_text(line) is None,
    ensures
        forall|c: Seq<char>, m: Seq<(usize, usize)>|
            assoc_unique(m) ==> line != spec_record(c, m),
{
    assert forall|c: Seq<char>, m: Seq<(usize, usize)>|
        assoc_unique(m) implies line != spec_record(c, m) by {
        if line == spec_record(c, m) {
            lemma_parse_record_complete(c, m);
        }
    }
}

/// Trimming a text that starts and ends with non-whitespace changes
/// nothing.
proof fn lemma_trim_identity(s: Seq<char>)
    requires
        s.len() > 0,
        !crate::exec::is_space(s[0]),
        !crate::exec::is_space(s.last()),
    ensures
        spec_trim(s) == s,
{
    assert(spec_trim_start(s) == s);
    assert(spec_trim_end(s) == s);
}

/// Escaped text holds no newline.
proof fn lemma_escape_no_newline(c: Seq<char>, x: int)
    requires
        0 <= x <= c.len(),
    ensures
        forall|q: int|
            0 <= q < spec_escape_from(c, x).len() ==> spec_escape_from(c, x)[q] != '\n',
    decreases c.len() - x,
{
    if x < c.len() {
        lemma_escape_no_newline(c, x + 1);
        let e = spec_escape_char(c[x]);
        let rest = spec_escape_from(c, x + 1);
        assert(forall|q: int| 0 <= q < e.len() ==> e[q] != '\n') by {
            if !(c[x] == '"' || c[x] == '\\' || (c[x] as int) < 32) {
                assert(e =~= seq![c[x]]);
                assert((c[x] as int) >= 32);
            }
        }
        assert forall|q: int|
            0 <= q < spec_escape_from(c, x).len() implies spec_escape_from(c, x)[q] != '\n' by {
            assert(spec_escape_from(c, x) == e + rest);
            if q < e.len() {
                assert((e + rest)[q] == e[q]);
            } else {
                assert((e + rest)[q] == rest[q - e.len()]);
            }
        }
    }
}

/// Decimal text holds no newline.
proof fn lemma_nat_string_no_newline(v: nat)
    ensures
        forall|q: int| 0 <= q < spec_nat_string(v).len() ==> spec_nat_string(v)[q] != '\n',
{
    lemma_nat_string_digits(v);
    assert forall|q: int|
        0 <= q < spec_nat_string(v).len() implies spec_nat_string(v)[q] != '\n' by {
        assert(is_digit(spec_nat_string(v)[q]));
    }
}

/// The override body holds no newline.
proof fn lemma_body_no_newline(m: Seq<(usize, usize)>, x: int)
    requires
        0 <= x <= m.len(),
    ensures
        forall|q: int|
            0 <= q < spec_styles_body(m, x).len() ==> spec_styles_body(m, x)[q] != '\n',
    decreases m.len() - x,
{
    if x < m.len() {
        lemma_body_no_newline(m, x + 1);
        lemma_nat_string_no_newline(m[x].0 as nat);
        lemma_nat_string_no_newline(m[x].1 as nat);
        let sep: Seq<char> = if x > 0 {
            seq![',']
        } else {
            Seq::empty()
        };
        let nsk = spec_nat_string(m[x].0 as nat);
        let nsv = spec_nat_string(m[x].1 as nat);
        let entry = spec_styles_entry(m[x].0, m[x].1);
        let rest = spec_styles_body(m, x + 1);
        assert(entry == seq!['"'] + nsk + seq!['"', ':'] + nsv);
        assert forall|q: int| 0 <= q < entry.len() implies entry[q] != '\n' by {
            let a = seq!['"'] + nsk;
            let b = a + seq!['"', ':'];
            assert(entry[q] == (b + nsv)[q]);
            if q < b.len() {
                assert((b + nsv)[q] == b[q]);
                if q < a.len() {
                    assert(b[q] == a[q]);
                    if q >= 1 {
                        assert(a[q] == nsk[q - 1]);
                    }
                } else {
                    assert(b[q] == seq!['"', ':'][q - a.len()]);
                }
            } else {
                assert((b + nsv)[q] == nsv[q - b.len()]);
            }
        }
        assert forall|q: int|
            0 <= q < spec_styles_body(m, x).len() implies spec_styles_body(m, x)[q] != '\n' by {
            assert(spec_styles_body(m, x) == sep + entry + rest);
            let sl = sep.len() as int;
            if q < sl {
                assert((sep + entry + rest)[q] == sep[q]);
            } else if q < sl + entry.len() {
                assert((sep + entry)[q] == entry[q - sl]);
                assert((sep + entry + rest)[q] == (sep + entry)[q]);
            } else {
                assert((sep + entry + rest)[q] == rest[q - sl - entry.len()]);
            }
        }
    }
}

/// A canonical record line holds no newline.
proof fn lemma_record_no_newline(c: Seq<char>, m: Seq<(usize, usize)>)
    ensures
        forall|q: int| 0 <= q < spec_record(c, m).len() ==> spec_record(c, m)[q] != '\n',
        spec_record(c, m).len() > 0,
        spec_record(c, m)[0] == '{',
        spec_record(c, m).last() == '}',
{
    reveal_strlit("{\"command\":");
    reveal_strlit(",\"styles\":{");
    reveal_strlit("}}");
    let p1 = "{\"command\":"@;
    let p2 = ",\"styles\":{"@;
    let p3 = "}}"@;
    let qt = spec_quoted(c);
    let b = spec_styles_body(m, 0);
    let line = spec_record(c, m);
    assert(line == p1 + qt + p2 + b + p3);
    lemma_escape_no_newline(c, 0);
    lemma_body_no_newline(m, 0);
    assert(forall|q: int| 0 <= q < p1.len() ==> p1[q] != '\n');
    assert(forall|q: int| 0 <= q < p2.len() ==> p2[q] != '\n');
    assert(forall|q: int| 0 <= q < p3.len() ==> p3[q] != '\n');
    assert forall|q: int| 0 <= q < qt.len() implies qt[q] != '\n' by {
        assert(qt == seq!['"'] + spec_escape(c) + seq!['"']);
        let a = seq!['"'] + spec_escape(c);
        assert(qt[q] == (a + seq!['"'])[q]);
        if q < a.len() {
            assert((a + seq!['"'])[q] == a[q]);
            if q >= 1 {
                assert(a[q] == spec_escape(c)[q - 1]);
                assert(spec_escape_from(c, 0) == spec_escape(c));
            }
        } else {
            assert((a + seq!['"'])[q] == '"');
        }
    }
    assert forall|q: int| 0 <= q < line.len() implies line[q] != '\n' by {
        let a1 = p1 + qt;
        let a2 = a1 + p2;
        let a3 = a2 + b;
        assert(line[q] == (a3 + p3)[q]);
        if q < a3.len() {
            assert((a3 + p3)[q] == a3[q]);
            if q < a2.len() {
                assert(a3[q] == a2[q]);
                if q < a1.len() {
                    assert(a2[q] == a1[q]);
                } else {
                    assert(a2[q] == p2[q - a1.len()]);
                }
            } else {
                assert(a3[q] == b[q - a2.len()]);
            }
        } else {
            assert((a3 + p3)[q] == p3[q - a3.len()]);
        }
    }
    assert(line[0] == '{') by {
        assert((p1 + qt)[0] == p1[0]);
        assert((p1 + qt + p2)[0] == (p1 + qt)[0]);
        assert((p1 + qt + p2 + b)[0] == (p1 + qt + p2)[0]);
        assert(line[0] == (p1 + qt + p2 + b)[0]);
    }
    assert(line.last() == '}') by {
        assert(line[line.len() - 1] == p3[1]);
    }
}

/// Splitting lines from two equal suffixes agrees.
proof fn lemma_lines_align(a: Seq<char>, b: Seq<char>, i: int, j: int, cur: Seq<char>)
    requires
        0 <= i <= a.len(),
        0 <= j <= b.len(),
        a.len() - i == b.len() - j,
        forall|q: int| 0 <= q < a.len() - i ==> #[trigger] a[i + q] == b[j + q],
    ensures
        spec_lines_from(a, i, cur) == spec_lines_from(b, j, cur),
    decreases a.len() - i,
{
    if i < a.len() {
        assert(a[i + 0] == b[j + 0]);
        assert(a[i] == b[j]);
        assert forall|q: int| 0 <= q < a.len() - (i + 1) implies #[trigger] a[i + 1 + q] == b[j
            + 1 + q] by {
            assert(a[i + (q + 1)] == b[j + (q + 1)]);
        }
        if a[i] == '\n' {
            lemma_lines_align(a, b, i + 1, j + 1, Seq::empty());
        } else {
            lemma_lines_align(a, b, i + 1, j + 1, cur.push(a[i]));
        }
    }
}

/// A line without newlines followed by a newline splits off as one line.
proof fn lemma_lines_from_upto(full: Seq<char>, i: int, p: int, cur: Seq<char>)
    requires
        0 <= i <= p < full.len(),
        full[p] == '\n',
        forall|q: int| i <= q < p ==> full[q] != '\n',
    ensures
        spec_lines_from(full, i, cur) == seq![cur + full.subrange(i, p)] + spec_lines_from(
            full,
            p + 1,
            Seq::empty(),
        ),
    decreases p - i,
{
    if i == p {
        assert(cur + full.subrange(i, p) =~= cur);
    } else {
        assert(full[i] != '\n');
        lemma_lines_from_upto(full, i + 1, p, cur.push(full[i]));
        assert(cur.push(full[i]) + full.subrange(i + 1, p) =~= cur + full.subrange(i, p));
    }
}

/// The lines of a record file are the record lines, then one empty line.
proof fn lemma_file_lines(rs: Seq<(Seq<char>, Seq<(usize, usize)>)>, x: int)
    requires
        0 <= x <= rs.len(),
    ensures
        spec_lines(spec_style_file_from(rs, x)) == Seq::new(
            (rs.len() - x) as nat,
            |q: int| spec_record(rs[x + q].0, rs[x + q].1),
        ) + seq![Seq::<char>::empty()],
    decreases rs.len() - x,
{
    let t = spec_style_file_from(rs, x);
    if x == rs.len() {
        assert(t =~= Seq::<char>::empty());
        assert(spec_lines(t) =~= seq![Seq::<char>::empty()]);
        assert(Seq::new(0nat, |q: int| spec_record(rs[x + q].0, rs[x + q].1)) + seq![Seq::<
            char,
        >::empty()] =~= seq![Seq::<char>::empty()]);
    } else {
        lemma_file_lines(rs, x + 1);
        let rec = spec_record(rs[x].0, rs[x].1);
        let rest = spec_style_file_from(rs, x + 1);
        assert(t == rec + seq!['\n'] + rest);
        lemma_record_no_newline(rs[x].0, rs[x].1);
        let p = rec.len() as int;
        assert(t[p] == '\n') by {
            assert((rec + seq!['\n'])[p] == '\n');
            assert((rec + seq!['\n'] + rest)[p] == (rec + seq!['\n'])[p]);
        }
        assert forall|q: int| 0 <= q < p implies t[q] != '\n' by {
            assert((rec + seq!['\n'])[q] == rec[q]);
            assert((rec + seq!['\n'] + rest)[q] == (rec + seq!['\n'])[q]);
        }
        lemma_lines_from_upto(t, 0, p, Seq::empty());
        assert(Seq::<char>::empty() + t.subrange(0, p) =~= rec);
        assert forall|q: int| 0 <= q < rest.len() implies t[p + 1 + q] == rest[q] by {
            assert((rec + seq!['\n'] + rest)[p + 1 + q] == rest[q]);
        }
        lemma_lines_align(t, rest, p + 1, 0, Seq::empty());
        assert(seq![rec] + (Seq::new((rs.len() - (x + 1)) as nat, |q: int| spec_record(rs[x + 1 + q].0, rs[x + 1 + q].1)) + seq![Seq::<char>::empty()])
            =~= Seq::new((rs.len() - x) as nat, |q: int| spec_record(rs[x + q].0, rs[x + q].1)) + seq![Seq::<char>::empty()]);
    }
}

/// The entry scanner only ever yields tables without repeated indices.
proof fn lemma_scan_styles_unique(cs: Seq<char>, j: int, m: Seq<(usize, usize)>)
    requires
        assoc_unique(m),
    ensures
        match spec_scan_styles(cs, j, m) {
            Some((out, _)) => assoc_unique(out),
            None => true,
        },
    decreases cs.len() - j,
{
    if !(m.len() > 0 && !(0 <= j < cs.len() && cs[j] == ',')) {
        let at: int = if m.len() > 0 {
            j + 1
        } else {
            j
        };
        if 0 <= at < cs.len() && cs[at] == '"' {
            if let Some((key, after_key)) = spec_parse_usize(cs, at + 1) {
                if 0 <= after_key < cs.len() && cs[after_key] == '"' && after_key + 1 < cs.len()
                    && cs[after_key + 1] == ':' {
                    if let Some((val, after_val)) = spec_parse_usize(cs, after_key + 2) {
                        if assoc_lookup(m, key as usize) is None {
                            assert forall|x: int|
                                0 <= x < m.len() implies (#[trigger] m[x]).0 != (key as usize) by {
                                if m[x].0 == (key as usize) {
                                    lemma_assoc_lookup_some(m, x);
                                }
                            }
                            lemma_assoc_push(m, key as usize, val as usize);
                            let m2 = m.push((key as usize, val as usize));
                            if !(0 <= after_val < cs.len() && cs[after_val] == '}') && j
                                < after_val <= cs.len() {
                                lemma_scan_styles_unique(cs, after_val, m2);
                            }
                        }
                    }
                }
            }
        }
    }
}

/// A parsed record's override table has no repeated index.
proof fn lemma_parse_record_text_unique(t: Seq<char>)
    ensures
        match spec_parse_record_text(t) {
            Some((c, m)) => assoc_unique(m),
            None => true,
        },
{
    if let Some(i1) = spec_expect(t, 0, "{\"command\":"@) {
        if let Some((cmd, i2)) = spec_parse_quoted(t, i1) {
            if let Some(i3) = spec_expect(t, i2, ",\"styles\":{"@) {
                lemma_scan_styles_unique(t, i3, Seq::empty());
            }
        }
    }
}

/// Loading from two equal line suffixes agrees.
proof fn lemma_load_align(
    a: Seq<Seq<char>>,
    b: Seq<Seq<char>>,
    i: int,
    j: int,
    found: Option<Seq<(usize, usize)>>,
    key: Seq<char>,
)
    requires
        0 <= i <= a.len(),
        0 <= j <= b.len(),
        a.len() - i == b.len() - j,
        forall|q: int| 0 <= q < a.len() - i ==> #[trigger] a[i + q] == b[j + q],
    ensures
        spec_load(a, i, found, key) == spec_load(b, j, found, key) || (spec_load(a, i, found, key)
            matches Err(ea) && spec_load(b, j, found, key) matches Err(eb) && ea - i == eb - j),
    decreases a.len() - i,
{
    if i < a.len() {
        assert(a[i + 0] == b[j + 0]);
        assert(a[i] == b[j]);
        assert forall|q: int| 0 <= q < a.len() - (i + 1) implies #[trigger] a[i + 1 + q] == b[j
            + 1 + q] by {
            assert(a[i + (q + 1)] == b[j + (q + 1)]);
        }
        let t = spec_trim(a[i]);
        if t.len() == 0 {
            lemma_load_align(a, b, i + 1, j + 1, found, key);
        } else {
            match spec_parse_record_text(t) {
                None => {},
                Some((c, m)) => {
                    lemma_load_align(
                        a,
                        b,
                        i + 1,
                        j + 1,
                        if c == key {
                            Some(m)
                        } else {
                            found
                        },
                        key,
                    );
                },
            }
        }
    }
}

/// The override table of the last record for `key` among the records of
/// `rs` from position `x` on, with `found` what earlier records gave.
pub open spec fn spec_last_match(
    rs: Seq<(Seq<char>, Seq<(usize, usize)>)>,
    x: int,
    found: Option<Seq<(usize, usize)>>,
    key: Seq<char>,
) -> Option<Seq<(usize, usize)>>
    decreases rs.len() - x,
{
    if !(0 <= x < rs.len()) {
        found
    } else {
        spec_last_match(
            rs,
            x + 1,
            if rs[x].0 == key {
                Some(rs[x].1)
            } else {
                found
            },
            key,
        )
    }
}

/// Loading a rendered record file finds the last record for the key.
#[verifier::rlimit(50)]
proof fn lemma_load_of_file(
    rs: Seq<(Seq<char>, Seq<(usize, usize)>)>,
    x: int,
    found: Option<Seq<(usize, usize)>>,
    key: Seq<char>,
)
    requires
        0 <= x <= rs.len(),
        forall|q: int| x <= q < rs.len() ==> assoc_unique((#[trigger] rs[q]).1),
    ensures
        spec_load(spec_lines(spec_style_file_from(rs, x)), 0, found, key) == Ok::<
            Seq<(usize, usize)>,
            int,
        >(
            match spec_last_match(rs, x, found, key) {
                Some(m) => spec_reduce(m),
                None => Seq::empty(),
            },
        ),
    decreases rs.len() - x,
{
    lemma_file_lines(rs, x);
    let lines = spec_lines(spec_style_file_from(rs, x));
    if x == rs.len() {
        assert(lines =~= seq![Seq::<char>::empty()]);
        assert(spec_trim(Seq::<char>::empty()).len() == 0);
    } else {
        let rec = spec_record(rs[x].0, rs[x].1);
        lemma_record_no_newline(rs[x].0, rs[x].1);
        assert(!crate::exec::is_space('{') && !crate::exec::is_space('}'));
        lemma_trim_identity(rec);
        lemma_parse_record_complete(rs[x].0, rs[x].1);
        assert(lines[0] == rec);
        let found2 = if rs[x].0 == key {
            Some(rs[x].1)
        } else {
            found
        };
        lemma_load_of_file(rs, x + 1, found2, key);
        lemma_file_lines(rs, x + 1);
        let lines2 = spec_lines(spec_style_file_from(rs, x + 1));
        assert(lines =~= seq![rec] + lines2);
        assert forall|q: int| 0 <= q < lines.len() - 1 implies #[trigger] lines[1 + q]
            == lines2[0 + q] by {
            assert((seq![rec] + lines2)[1 + q] == lines2[q]);
        }
        lemma_load_align(lines, lines2, 1, 0, found2, key);
        assert(spec_load(lines, 0, found, key) == spec_load(lines, 1, found2, key));
    }
}

/// Law: saving then loading for the same command restores the overrides
/// exactly. `kept` stands for the other commands' records that the save
/// scanned out of the old file: their commands differ from the key, and no
/// record repeats an item index.
pub proof fn lemma_save_load_round_trip(
    kept: Seq<(Seq<char>, Seq<(usize, usize)>)>,
    key: Seq<char>,
    styles: Seq<(usize, usize)>,
)
    requires
        assoc_unique(styles),
        forall|j: int| 0 <= j < styles.len() ==> (#[trigger] styles[j]).1 < NUM_STYLES,
        forall|j: int| 0 <= j < kept.len() ==> (#[trigger] kept[j]).0 != key,
        forall|j: int| 0 <= j < kept.len() ==> assoc_unique((#[trigger] kept[j]).1),
    ensures
        spec_load(spec_lines(spec_style_file(kept.push((key, styles)))), 0, None, key) == Ok::<
            Seq<(usize, usize)>,
            int,
        >(styles),
{
    let rs = kept.push((key, styles));
    assert(forall|q: int|
        0 <= q < rs.len() ==> assoc_unique((#[trigger] rs[q]).1)) by {
        assert(forall|q: int| 0 <= q < kept.len() ==> rs[q] == kept[q]);
        assert(rs[kept.len() as int] == (key, styles));
    }
    lemma_load_of_file(rs, 0, None, key);
    lemma_last_match_is_last(rs, 0, None, key, styles);
    assert(spec_reduce(styles) =~= styles) by {
        assert forall|j: int| 0 <= j < styles.len() implies #[trigger] spec_reduce(styles)[j]
            == styles[j] by {
            vstd::arithmetic::div_mod::lemma_small_mod(
                styles[j].1 as nat,
                NUM_STYLES as nat,
            );
        }
    }
}

/// The last record wins: when only the final record carries the key, the
/// walk lands on its table.
proof fn lemma_last_match_is_last(
    rs: Seq<(Seq<char>, Seq<(usize, usize)>)>,
    x: int,
    found: Option<Seq<(usize, usize)>>,
    key: Seq<char>,
    styles: Seq<(usize, usize)>,
)
    requires
        0 <= x <= rs.len(),
        rs.len() > 0,
        rs[rs.len() - 1] == (key, styles),
        forall|j: int| 0 <= j < rs.len() - 1 ==> (#[trigger] rs[j]).0 != key,
    ensures
        x < rs.len() ==> spec_last_match(rs, x, found, key) == Some(styles),
    decreases rs.len() - x,
{
    if x < rs.len() {
        if x == rs.len() - 1 {
            assert(rs[x].0 == key);
            assert(rs[x].1 == styles);
            assert(spec_last_match(rs, x, found, key) == spec_last_match(
                rs,
                x + 1,
                Some(styles),
                key,
            ));
            assert(spec_last_match(rs, x + 1, Some(styles), key) == Some(styles));
        } else {
            lemma_last_match_is_last(
                rs,
                x + 1,
                if rs[x].0 == key {
                    Some(rs[x].1)
                } else {
                    found
                },
                key,
                styles,
            );
        }
    }
}

/// What the save scan keeps is fit for the round trip: every kept record
/// names another command, and no kept record repeats an item index.
pub proof fn lemma_save_scan_wf(
    lines: Seq<Seq<char>>,
    li: int,
    kept: Seq<(Seq<char>, Seq<(usize, usize)>)>,
    key: Seq<char>,
)
    requires
        forall|j: int|
            0 <= j < kept.len() ==> (#[trigger] kept[j]).0 != key && assoc_unique(kept[j].1),
    ensures
        match spec_save_scan(lines, li, kept, key) {
            Ok(k) => forall|j: int|
                0 <= j < k.len() ==> (#[trigger] k[j]).0 != key && assoc_unique(k[j].1),
            Err(_) => true,
        },
    decreases lines.len() - li,
{
    if 0 <= li < lines.len() {
        let t = spec_trim(lines[li]);
        if t.len() == 0 {
            lemma_save_scan_wf(lines, li + 1, kept, key);
        } else {
            match spec_parse_record_text(t) {
                None => {},
                Some((c, m)) => {
                    if c == key {
                        lemma_save_scan_wf(lines, li + 1, kept, key);
                    } else {
                        lemma_parse_record_text_unique(t);
                        let kept2 = kept.push((c, m));
                        assert(forall|j: int| 0 <= j < kept.len() ==> kept2[j] == kept[j]);
                        assert(kept2[kept.len() as int] == (c, m));
                        lemma_save_scan_wf(lines, li + 1, kept2, key);
                    }
                },
            }
        }
    }
}

} // verus!
