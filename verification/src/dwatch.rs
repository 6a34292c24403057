//! Per-line processing: splitting a line into numeric tokens and literal
//! chunks, and tracking how each number moves between passes.

use vstd::prelude::*;

use core::ops::Range;

use crate::assoc::{assoc_lookup, assoc_unique};
use crate::ranges::{is_digit, is_sign, ranges_wf, spec_numeric_ranges, RangeParser};
use crate::styles::{spec_current, Styles, NUM_STYLES};

verus! {

/// An error scoped to a single rendered line.
#[derive(PartialEq, Eq, Structural, Clone, Copy, Debug)]
pub enum LineError {
    /// A substring that looked numeric failed 64-bit integer parsing, or a
    /// token range did not lie within the line.
    TokenParse { start: usize, end: usize },
}

/// Every character of `s` is a decimal digit.
pub open spec fn all_digits(s: Seq<char>) -> bool {
    forall|k: int| 0 <= k < s.len() ==> is_digit(#[trigger] s[k])
}

/// The value of a non-empty string of decimal digits, most significant
/// digit first.
pub open spec fn digits_value(s: Seq<char>) -> int
    decreases s.len(),
{
    if s.len() == 0 {
        0
    } else {
        digits_value(s.drop_last()) * 10 + (s.last() as int - 48)
    }
}

/// What 64-bit signed integer parsing yields on `s`: an optional single
/// sign followed by one or more digits, and a value within the 64-bit
/// range; anything else is rejected.
pub open spec fn spec_parse_i64(s: Seq<char>) -> Option<int> {
    let sign: int = if s.len() > 0 && s[0] == '-' {
        -1
    } else {
        1
    };
    let ds = if s.len() > 0 && is_sign(s[0]) {
        s.skip(1)
    } else {
        s
    };
    if ds.len() > 0 && all_digits(ds) {
        let v = sign * digits_value(ds);
        if i64::MIN <= v <= i64::MAX {
            Some(v)
        } else {
            None
        }
    } else {
        None
    }
}

/// What parsing the token at `r` of line `s` yields: the range must lie
/// within the line and hold a parseable integer.
pub open spec fn spec_token_num(s: Seq<char>, r: Range<usize>) -> Option<int> {
    if r.start <= r.end <= s.len() {
        spec_parse_i64(s.subrange(r.start as int, r.end as int))
    } else {
        None
    }
}

/// A digit string's value is non-negative.
pub proof fn lemma_digits_value_nonneg(s: Seq<char>)
    requires
        all_digits(s),
    ensures
        digits_value(s) >= 0,
    decreases s.len(),
{
    if s.len() > 0 {
        assert(all_digits(s.drop_last()));
        lemma_digits_value_nonneg(s.drop_last());
    }
}

/// A digit string's value only grows as digits are appended on the right.
pub proof fn lemma_digits_value_prefix_mono(s: Seq<char>, k: int)
    requires
        all_digits(s),
        0 <= k <= s.len(),
    ensures
        digits_value(s) >= digits_value(s.subrange(0, k)),
    decreases s.len() - k,
{
    if k == s.len() {
        assert(s.subrange(0, k) =~= s);
    } else {
        lemma_digits_value_prefix_mono(s, k + 1);
        let p = s.subrange(0, k + 1);
        assert(all_digits(p));
        assert(p.drop_last() =~= s.subrange(0, k));
        lemma_digits_value_nonneg(s.subrange(0, k));
        assert(digits_value(p) == digits_value(s.subrange(0, k)) * 10 + (s[k] as int - 48));
        assert(is_digit(s[k]));
    }
}

/// Parses a 64-bit signed integer: an optional single sign followed by one
/// or more decimal digits, rejecting anything else and any value outside
/// the 64-bit range.
pub fn parse_i64_str(s: &str) -> (r: Option<i64>)
    ensures
        match r {
            Some(v) => spec_parse_i64(s@) == Some(v as int),
            None => spec_parse_i64(s@) is None,
        },
{
    let n = s.unicode_len();
    if n == 0 {
        return None;
    }
    let c0 = s.get_char(0);
    let neg = c0 == '-';
    let start: usize = if c0 == '-' || c0 == '+' {
        1
    } else {
        0
    };
    let ghost ds = if is_sign(s@[0]) {
        s@.skip(1)
    } else {
        s@
    };
    proof {
        assert(ds =~= s@.subrange(start as int, n as int));
    }
    if n == start {
        return None;
    }
    let mut acc: i64 = 0;
    let mut i = start;
    while i < n
        invariant
            start <= i <= n,
            n == s@.len(),
            start == 0 || start == 1,
            start == 1 ==> is_sign(s@[0]),
            start == 0 ==> !(n > 0 && is_sign(s@[0])),
            ds == s@.subrange(start as int, n as int),
            all_digits(s@.subrange(start as int, i as int)),
            acc == -digits_value(s@.subrange(start as int, i as int)),
            acc <= 0,
        decreases n - i,
    {
        let c = s.get_char(i);
        let ghost pre = s@.subrange(start as int, i as int);
        let ghost cur = s@.subrange(start as int, i + 1);
        proof {
            assert(cur.drop_last() =~= pre);
        }
        if !('0' <= c && c <= '9') {
            proof {
                if start == 1 {
                    assert(s@.skip(1) =~= s@.subrange(1, n as int));
                } else {
                    assert(s@.subrange(0, n as int) =~= s@);
                }
                assert(ds[i - start] == c);
                assert(!all_digits(ds)) by {
                    assert(0 <= i - start < ds.len());
                    assert(!is_digit(ds[i - start]));
                }
                assert(ds == if s@.len() > 0 && is_sign(s@[0]) {
                    s@.skip(1)
                } else {
                    s@
                });
                assert(spec_parse_i64(s@) is None);
            }
            return None;
        }
        let d = (c as u32 - 48) as i64;
        let overflowed: bool;
        match acc.checked_mul(10) {
            Some(a) => {
                match a.checked_sub(d) {
                    Some(b) => {
                        acc = b;
                        overflowed = false;
                    },
                    None => {
                        overflowed = true;
                    },
                }
            },
            None => {
                overflowed = true;
            },
        }
        if overflowed {
            proof {
                if start == 1 {
                    assert(s@.skip(1) =~= s@.subrange(1, n as int));
                } else {
                    assert(s@.subrange(0, n as int) =~= s@);
                }
                assert(ds == if s@.len() > 0 && is_sign(s@[0]) {
                    s@.skip(1)
                } else {
                    s@
                });
                assert(all_digits(cur));
                lemma_digits_value_nonneg(pre);
                assert(digits_value(cur) == digits_value(pre) * 10 + (c as int - 48));
                assert(digits_value(cur) > 0x8000_0000_0000_0000);
                if all_digits(ds) {
                    assert(cur =~= ds.subrange(0, i + 1 - start));
                    lemma_digits_value_prefix_mono(ds, i + 1 - start);
                    assert(digits_value(ds) > 0x8000_0000_0000_0000);
                    let sgn: int = if s@.len() > 0 && s@[0] == '-' {
                        -1
                    } else {
                        1
                    };
                    let dv = digits_value(ds);
                    if sgn == -1 {
                        assert(sgn * dv == -dv) by (nonlinear_arith)
                            requires
                                sgn == -1,
                        ;
                        assert(sgn * dv < i64::MIN);
                    } else {
                        assert(sgn * dv == dv) by (nonlinear_arith)
                            requires
                                sgn == 1,
                        ;
                        assert(sgn * dv > i64::MAX);
                    }
                    assert(spec_parse_i64(s@) is None);
                } else {
                    assert(spec_parse_i64(s@) is None);
                }
            }
            return None;
        }
        i = i + 1;
    }
    proof {
        assert(all_digits(ds));
        assert(acc == -digits_value(ds));
        lemma_digits_value_nonneg(ds);
        assert(ds.len() > 0);
    }
    if neg {
        proof {
            assert(s@[0] == '-');
            assert(spec_parse_i64(s@) == Some(-1 * digits_value(ds)));
            assert(acc as int == -1 * digits_value(ds));
        }
        Some(acc)
    } else if acc == i64::MIN {
        proof {
            assert(digits_value(ds) == 0x8000_0000_0000_0000);
            assert(spec_parse_i64(s@) is None);
        }
        None
    } else {
        proof {
            assert(spec_parse_i64(s@) == Some(1 * digits_value(ds)));
        }
        Some(-acc)
    }
}

/// The gaps around and between `xs`, starting at `first` and ending at
/// `size`, with empty gaps left out. Mirrors the complement walk: each
/// range contributes the gap from the running position to its start, and
/// moves the running position to its end.
pub open spec fn spec_complement(xs: Seq<Range<usize>>, first: int, size: int) -> Seq<Range<usize>>
    decreases xs.len(),
{
    if xs.len() == 0 {
        if first != size {
            seq![Range { start: first as usize, end: size as usize }]
        } else {
            Seq::empty()
        }
    } else {
        let head = if first != xs[0].start {
            seq![Range { start: first as usize, end: xs[0].start }]
        } else {
            Seq::<Range<usize>>::empty()
        };
        head + spec_complement(xs.skip(1), xs[0].end as int, size)
    }
}

/// The literal text ranges between and around the given token ranges of a
/// line of length `size`: every maximal gap not covered by a token, in
/// order, never including an empty range.
pub fn complement_ranges(xs: &[Range<usize>], size: usize) -> (r: Vec<Range<usize>>)
    ensures
        r@ == spec_complement(xs@, 0, size as int),
{
    let mut compvec: Vec<Range<usize>> = Vec::new();
    let mut first: usize = 0;
    let n = xs.len();
    let mut i: usize = 0;

    proof {
        assert(xs@.skip(0) =~= xs@);
        assert(compvec@ + spec_complement(xs@, 0, size as int) =~= spec_complement(
            xs@,
            0,
            size as int,
        ));
    }

    while i < n
        invariant
            i <= n,
            n == xs@.len(),
            spec_complement(xs@, 0, size as int) == compvec@ + spec_complement(
                xs@.skip(i as int),
                first as int,
                size as int,
            ),
        decreases n - i,
    {
        proof {
            assert(xs@.skip(i as int)[0] == xs@[i as int]);
            assert(xs@.skip(i as int).skip(1) =~= xs@.skip(i + 1));
        }
        if first != xs[i].start {
            compvec.push(Range { start: first, end: xs[i].start });
        }
        proof {
            assert(spec_complement(xs@, 0, size as int) == compvec@ + spec_complement(
                xs@.skip(i + 1),
                xs@[i as int].end as int,
                size as int,
            ));
        }
        first = xs[i].end;
        i = i + 1;
    }

    proof {
        assert(xs@.skip(n as int) =~= Seq::<Range<usize>>::empty());
    }
    if first != size {
        compvec.push(Range { start: first, end: size });
    }
    compvec
}

/// The complement of an ordered, disjoint, in-bounds range sequence is
/// itself ordered, disjoint and in bounds, and starts no earlier than
/// `first`.
pub proof fn lemma_complement_wf(rs: Seq<Range<usize>>, first: int, size: int)
    requires
        ranges_wf(rs, size),
        0 <= first <= size <= usize::MAX,
        rs.len() > 0 ==> first <= rs[0].start,
    ensures
        ranges_wf(spec_complement(rs, first, size), size),
        ({
            let gs = spec_complement(rs, first, size);
            gs.len() > 0 ==> gs[0].start >= first
        }),
    decreases rs.len(),
{
    if rs.len() == 0 {
    } else {
        let tail = rs.skip(1);
        assert(forall|k: int| 0 <= k < tail.len() ==> tail[k] == rs[k + 1]);
        lemma_complement_wf(tail, rs[0].end as int, size);
    }
}

/// The literal chunks of a line, given its token ranges: the text of every
/// gap between and around the tokens, in order.
pub open spec fn spec_chunks(s: Seq<char>, rs: Seq<Range<usize>>) -> Seq<Seq<char>> {
    spec_complement(rs, 0, s.len() as int).map_values(
        |g: Range<usize>| s.subrange(g.start as int, g.end as int),
    )
}

/// The numbers of a line, one per token range: the integer parse of each
/// token's text. `None` where a token fails to parse or a range does not
/// lie within the line.
pub fn parse_numbers(line: &str, ranges: &[Range<usize>]) -> (r: Result<Vec<i64>, LineError>)
    ensures
        match r {
            Ok(v) => v@.len() == ranges@.len() && forall|k: int|
                0 <= k < ranges@.len() ==> spec_token_num(line@, ranges@[k]) == Some(
                    v@[k] as int,
                ),
            Err(e) => exists|k: int|
                {
                    &&& 0 <= k < ranges@.len()
                    &&& spec_token_num(line@, #[trigger] ranges@[k]) is None
                    &&& forall|j: int| 0 <= j < k ==> spec_token_num(line@, #[trigger] ranges@[j]) is Some
                    &&& e == (LineError::TokenParse {
                        start: ranges@[k].start,
                        end: ranges@[k].end,
                    })
                },
        },
{
    let n = line.unicode_len();
    let m = ranges.len();
    let mut v: Vec<i64> = Vec::new();
    let mut k: usize = 0;
    while k < m
        invariant
            k <= m,
            m == ranges@.len(),
            n == line@.len(),
            v@.len() == k,
            forall|j: int| 0 <= j < k ==> spec_token_num(line@, ranges@[j]) == Some(v@[j] as int),
        decreases m - k,
    {
        let start = ranges[k].start;
        let end = ranges[k].end;
        if !(start <= end && end <= n) {
            return Err(LineError::TokenParse { start, end });
        }
        let tok = line.substring_char(start, end);
        match parse_i64_str(tok) {
            Some(x) => {
                v.push(x);
            },
            None => {
                return Err(LineError::TokenParse { start, end });
            },
        }
        k = k + 1;
    }
    Ok(v)
}

/// The literal chunks of a line: the text of every non-empty gap between
/// and around the given token ranges, in order.
pub fn parse_strings(line: &str, ranges: &[Range<usize>]) -> (r: Vec<String>)
    requires
        ranges_wf(ranges@, line@.len() as int),
    ensures
        r@.map_values(|c: String| c@) == spec_chunks(line@, ranges@),
{
    let n = line.unicode_len();
    let comp = complement_ranges(ranges, n);
    proof {
        lemma_complement_wf(ranges@, 0, n as int);
    }
    let ghost gs = spec_complement(ranges@, 0, n as int);
    let m = comp.len();
    let mut r: Vec<String> = Vec::new();
    let mut k: usize = 0;
    while k < m
        invariant
            k <= m,
            m == comp@.len(),
            n == line@.len(),
            comp@ == gs,
            ranges_wf(gs, n as int),
            r@.len() == k,
            forall|j: int| 0 <= j < k ==> (#[trigger] r@[j])@ == line@.subrange(
                gs[j].start as int,
                gs[j].end as int,
            ),
        decreases m - k,
    {
        let chunk = line.substring_char(comp[k].start, comp[k].end);
        r.push(chunk.to_owned());
        k = k + 1;
    }
    proof {
        assert(r@.map_values(|c: String| c@) =~= spec_chunks(line@, ranges@));
    }
    r
}

/// The numeric state of one rendered line: its current values and the
/// change of each since the previous pass.
#[derive(Debug)]
pub struct LineNumbers {
    /// The numbers the line holds now, in order.
    pub values: Vec<i64>,
    /// The change of each number since the previous pass.
    pub delta: Vec<i64>,
}

impl LineNumbers {
    /// The state of a line first seen with these numbers: its deltas are
    /// all zero.
    pub fn new(numbers: Vec<i64>) -> (r: LineNumbers)
        ensures
            r.values@ == numbers@,
            r.delta@ == Seq::new(numbers@.len(), |k: int| 0i64),
    {
        let n = numbers.len();
        let mut delta: Vec<i64> = Vec::new();
        let mut k: usize = 0;
        while k < n
            invariant
                k <= n,
                delta@ == Seq::new(k as nat, |j: int| 0i64),
            decreases n - k,
        {
            delta.push(0);
            proof {
                assert(delta@ =~= Seq::new((k + 1) as nat, |j: int| 0i64));
            }
            k = k + 1;
        }
        LineNumbers { values: numbers, delta }
    }
}

/// The parsed value of each token of a line, as 64-bit integers; only
/// meaningful where every token parses.
pub open spec fn spec_line_nums(s: Seq<char>, rs: Seq<Range<usize>>) -> Seq<i64> {
    Seq::new(rs.len(), |k: int| spec_token_num(s, rs[k]).unwrap() as i64)
}

/// The deltas that a line's new values produce against its prior state:
/// positionwise differences where the token count is unchanged, zeros
/// where the line is new or changed shape.
pub open spec fn spec_new_deltas(vals: Seq<i64>, prior: Option<LineNumbers>) -> Seq<i64> {
    match prior {
        Some(p) => if p.values@.len() == vals.len() {
            Seq::new(vals.len(), |k: int| vals[k].wrapping_sub(p.values@[k]))
        } else {
            Seq::new(vals.len(), |k: int| 0i64)
        },
        None => Seq::new(vals.len(), |k: int| 0i64),
    }
}

/// The styled text of one number: the strategy picked by the item's style
/// index (override or global), focused when the index is the focused one.
pub open spec fn spec_number_at(
    o: Seq<(usize, usize)>,
    g: usize,
    f: Option<usize>,
    idx: usize,
    v: i64,
    d: i64,
    t: int,
) -> Seq<char> {
    crate::render::spec_render_number(
        crate::render::spec_style_kind((spec_current(o, g, idx) % NUM_STYLES) as int),
        v as int,
        d as int,
        t,
        f == Some(idx),
    )
}

/// The rendered body of a line from piece `j` on: numbers and literal
/// chunks interleaved pairwise, number first when the line began with a
/// token, with each number styled at its absolute index `base + j`.
pub open spec fn spec_line_body(
    vals: Seq<i64>,
    ds: Seq<i64>,
    strs: Seq<Seq<char>>,
    num_first: bool,
    o: Seq<(usize, usize)>,
    g: usize,
    f: Option<usize>,
    base: int,
    t: int,
    j: int,
) -> Seq<char>
    decreases (if vals.len() > strs.len() {
        vals.len()
    } else {
        strs.len()
    }) - j,
{
    let n: int = if vals.len() > strs.len() {
        vals.len() as int
    } else {
        strs.len() as int
    };
    if !(0 <= j < n) {
        Seq::empty()
    } else {
        let num = spec_number_at(o, g, f, (base + j) as usize, vals[j], ds[j], t);
        let piece = if j < vals.len() && j < strs.len() {
            if num_first {
                num + strs[j]
            } else {
                strs[j] + num
            }
        } else if j < vals.len() {
            num
        } else {
            strs[j]
        };
        piece + spec_line_body(vals, ds, strs, num_first, o, g, f, base, t, j + 1)
    }
}

/// Tokens are at least one character wide and disjoint, so a well-formed
/// range sequence never holds more ranges than the line has characters.
pub proof fn lemma_ranges_wf_count(rs: Seq<Range<usize>>, size: int)
    requires
        ranges_wf(rs, size),
        size >= 0,
    ensures
        rs.len() <= size,
{
    if rs.len() > 0 {
        assert forall|k: int| 0 <= k < rs.len() implies (#[trigger] rs[k]).end >= k + 1 by {
            lemma_ranges_wf_end_grows(rs, size, k);
        }
        assert(rs[rs.len() - 1].end <= size);
    }
}

/// The end of the range at position `k` is beyond `k`.
proof fn lemma_ranges_wf_end_grows(rs: Seq<Range<usize>>, size: int, k: int)
    requires
        ranges_wf(rs, size),
        0 <= k < rs.len(),
    ensures
        rs[k].end >= k + 1,
    decreases k,
{
    if k > 0 {
        lemma_ranges_wf_end_grows(rs, size, k - 1);
    }
}

/// The per-line state of the watcher: the tokenizer it scans lines with,
/// the per-line statistics keyed by line position and literal fingerprint,
/// and the pass interval.
pub struct Dwatch {
    range_parser: RangeParser,
    line_map: Vec<((usize, u64), LineNumbers)>,
    interval_ms: u64,
}

impl Dwatch {
    /// The separator characters of the watcher's tokenizer.
    pub closed spec fn seps(&self) -> Seq<char> {
        self.range_parser.seps()
    }

    /// The per-line statistics map.
    pub closed spec fn map(&self) -> Seq<((usize, u64), LineNumbers)> {
        self.line_map@
    }

    /// The pass interval, in milliseconds.
    pub closed spec fn interval_ms(&self) -> u64 {
        self.interval_ms
    }

    /// The statistics map never holds two entries for one line key.
    pub closed spec fn wf(&self) -> bool {
        &&& assoc_unique(self.line_map@)
        &&& self.interval_ms > 0
    }

    /// A watcher with the default separator set: ASCII whitespace and
    /// common punctuation.
    pub fn new(interval_ms: u64) -> (d: Dwatch)
        requires
            interval_ms > 0,
        ensures
            d.wf(),
            d.seps() == spec_default_separators(),
            d.map() == Seq::<((usize, u64), LineNumbers)>::empty(),
            d.interval_ms() == interval_ms,
    {
        Dwatch {
            range_parser: RangeParser::new(default_separators()),
            line_map: Vec::new(),
            interval_ms,
        }
    }
}

/// The default token boundaries: ASCII whitespace and common punctuation.
pub open spec fn spec_default_separators() -> Seq<char> {
    seq![
        ' ', '\t', '\n', '\r', '\x0c', '.', ',', ':', ';', '(', ')', '[', ']', '{', '}', '<', '>',
        '\'', '`', '"', '|', '=',
    ]
}

/// The default separator characters, as a vector.
pub fn default_separators() -> (v: Vec<char>)
    ensures
        v@ == spec_default_separators(),
{
    let mut v: Vec<char> = Vec::new();
    v.push(' ');
    v.push('\t');
    v.push('\n');
    v.push('\r');
    v.push('\x0c');
    v.push('.');
    v.push(',');
    v.push(':');
    v.push(';');
    v.push('(');
    v.push(')');
    v.push('[');
    v.push(']');
    v.push('{');
    v.push('}');
    v.push('<');
    v.push('>');
    v.push('\'');
    v.push('`');
    v.push('"');
    v.push('|');
    v.push('=');
    proof {
        assert(v@ =~= spec_default_separators());
    }
    v
}

impl Dwatch {
    /// The styled text of the number at absolute item index `idx`: the
    /// strategy of the item's style index, focused when `idx` is focused.
    pub fn write_number(&self, numbers: (i64, i64), styles: &Styles, idx: usize) -> (r: String)
        requires
            self.wf(),
            styles.wf(),
        ensures
            r@ == spec_number_at(
                styles.spec_overrides(),
                styles.spec_global(),
                styles.spec_focus(),
                idx,
                numbers.0,
                numbers.1,
                self.interval_ms() as int,
            ),
    {
        let st = styles.current(idx);
        let kind = crate::render::style_kind(st);
        crate::render::render_number(kind, numbers.0, numbers.1, self.interval_ms, styles.is_focus(idx))
    }

    /// The rendered body of one line: literal chunks and styled numbers
    /// interleaved in their original order, with each number styled at its
    /// absolute item index starting from `initial_idx`.
    fn writeln_data(
        &self,
        strings: &Vec<String>,
        line_stat: &LineNumbers,
        num_first: bool,
        styles: &Styles,
        initial_idx: usize,
    ) -> (out: String)
        requires
            self.wf(),
            styles.wf(),
            line_stat.values@.len() == line_stat.delta@.len(),
            initial_idx + line_stat.values@.len() <= usize::MAX,
        ensures
            out@ == spec_line_body(
                line_stat.values@,
                line_stat.delta@,
                strings@.map_values(|c: String| c@),
                num_first,
                styles.spec_overrides(),
                styles.spec_global(),
                styles.spec_focus(),
                initial_idx as int,
                self.interval_ms() as int,
                0,
            ),
    {
        let ghost strs = strings@.map_values(|c: String| c@);
        let nv = line_stat.values.len();
        let ns = strings.len();
        let mx = if nv > ns {
            nv
        } else {
            ns
        };
        let mut out = String::new();
        let mut j: usize = 0;
        let ghost vals = line_stat.values@;
        let ghost ds = line_stat.delta@;
        let ghost o = styles.spec_overrides();
        let ghost g = styles.spec_global();
        let ghost f = styles.spec_focus();
        let ghost t = self.interval_ms() as int;
        proof {
        assert(out@ + spec_line_body(vals, ds, strs, num_first, o, g, f, initial_idx as int, t, 0)
                =~= spec_line_body(vals, ds, strs, num_first, o, g, f, initial_idx as int, t, 0));
        }
        while j < mx
            invariant
                j <= mx,
                self.wf(),
                styles.wf(),
                nv == vals.len(),
                ns == strs.len(),
                mx == if nv > ns { nv } else { ns },
                initial_idx + nv <= usize::MAX,
                vals == line_stat.values@,
                ds == line_stat.delta@,
                vals.len() == ds.len(),
                strs == strings@.map_values(|c: String| c@),
                o == styles.spec_overrides(),
                g == styles.spec_global(),
                f == styles.spec_focus(),
                t == self.interval_ms() as int,
                spec_line_body(vals, ds, strs, num_first, o, g, f, initial_idx as int, t, 0)
                    == out@ + spec_line_body(
                    vals,
                    ds,
                    strs,
                    num_first,
                    o,
                    g,
                    f,
                    initial_idx as int,
                    t,
                    j as int,
                ),
            decreases mx - j,
        {
            let absolute_idx = if j < nv {
                initial_idx + j
            } else {
                initial_idx
            };
            if j < nv && j < ns {
                proof {
                    assert(strings@[j as int]@ == strs[j as int]);
                }
                let num = self.write_number(
                    (line_stat.values[j], line_stat.delta[j]),
                    styles,
                    absolute_idx,
                );
                if num_first {
                    out.append(num.as_str());
                    out.append(strings[j].as_str());
                } else {
                    out.append(strings[j].as_str());
                    out.append(num.as_str());
                }
            } else if j < nv {
                let num = self.write_number(
                    (line_stat.values[j], line_stat.delta[j]),
                    styles,
                    absolute_idx,
                );
                out.append(num.as_str());
            } else {
                proof {
                    assert(strings@[j as int]@ == strs[j as int]);
                }
                out.append(strings[j].as_str());
            }
            j = j + 1;
        }
        out
    }

    /// The position of the entry stored under `(line_no, fp)`, if any.
    fn find_entry(&self, line_no: usize, fp: u64) -> (r: Option<usize>)
        ensures
            match r {
                Some(at) => at < self.map().len() && self.map()[at as int].0 == (line_no, fp)
                    && forall|j: int| 0 <= j < at ==> (#[trigger] self.map()[j]).0 != (line_no, fp),
                None => forall|j: int|
                    0 <= j < self.map().len() ==> (#[trigger] self.map()[j]).0 != (line_no, fp),
            },
    {
        let n = self.line_map.len();
        let mut k: usize = 0;
        while k < n
            invariant
                k <= n,
                n == self.line_map@.len(),
                forall|j: int| 0 <= j < k ==> (#[trigger] self.line_map@[j]).0 != (line_no, fp),
            decreases n - k,
        {
            if self.line_map[k].0.0 == line_no && self.line_map[k].0.1 == fp {
                proof {
                    assert(self.line_map@[k as int].0 == (line_no, fp));
                }
                return Some(k);
            }
            k = k + 1;
        }
        None
    }

    /// Transforms one line of command output and renders it: tokenizes,
    /// parses the numbers, fingerprints the literal chunks, updates the
    /// line's stored statistics (deltas where the token count is unchanged,
    /// a reset to zeros where it changed), and returns the styled text
    /// together with the line's token count. A token that fails integer
    /// parsing fails only this line and leaves the state unchanged.
    pub fn writeln_line(
        &mut self,
        line: &str,
        line_no: usize,
        num_no: usize,
        styles: &Styles,
    ) -> (r: Result<(String, usize), LineError>)
        requires
            old(self).wf(),
            styles.wf(),
            num_no + line@.len() <= usize::MAX,
        ensures
            final(self).wf(),
            final(self).seps() == old(self).seps(),
            final(self).interval_ms() == old(self).interval_ms(),
            ({
                let rs = spec_numeric_ranges(line@, old(self).seps());
                let chunks = spec_chunks(line@, rs);
                let key = (line_no, crate::text::spec_fingerprint(chunks));
                match r {
                    Ok((out, cnt)) => {
                        let vals = spec_line_nums(line@, rs);
                        let deltas = spec_new_deltas(vals, assoc_lookup(old(self).map(), key));
                        &&& forall|k: int|
                            0 <= k < rs.len() ==> spec_token_num(line@, #[trigger] rs[k]) is Some
                        &&& cnt == rs.len()
                        &&& match assoc_lookup(final(self).map(), key) {
                            Some(st) => st.values@ == vals && st.delta@ == deltas,
                            None => false,
                        }
                        &&& forall|q: (usize, u64)|
                            q != key ==> assoc_lookup(final(self).map(), q) == assoc_lookup(
                                old(self).map(),
                                q,
                            )
                        &&& out@ == spec_line_body(
                            vals,
                            deltas,
                            chunks,
                            rs.len() > 0 && rs[0].start == 0,
                            styles.spec_overrides(),
                            styles.spec_global(),
                            styles.spec_focus(),
                            num_no as int,
                            old(self).interval_ms() as int,
                            0,
                        )
                    },
                    Err(e) => {
                        &&& *final(self) == *old(self)
                        &&& exists|k: int|
                            {
                                &&& 0 <= k < rs.len()
                                &&& spec_token_num(line@, #[trigger] rs[k]) is None
                                &&& forall|j: int|
                                    0 <= j < k ==> spec_token_num(line@, #[trigger] rs[j]) is Some
                                &&& e == (LineError::TokenParse {
                                    start: rs[k].start,
                                    end: rs[k].end,
                                })
                            }
                    },
                }
            }),
    {
        let ranges = self.range_parser.get_numeric_ranges(line);
        let strings = parse_strings(line, ranges.as_slice());
        let numbers = match parse_numbers(line, ranges.as_slice()) {
            Ok(v) => v,
            Err(e) => {
                return Err(e);
            },
        };
        let ghost rs = spec_numeric_ranges(line@, self.seps());
        let ghost chunks = spec_chunks(line@, rs);
        proof {
            assert(numbers@ =~= spec_line_nums(line@, rs));
        }
        let fp = crate::text::chunks_fingerprint(&strings);
        let total = numbers.len();
        proof {
            lemma_ranges_wf_count(rs, line@.len() as int);
        }

        let found = self.find_entry(line_no, fp);
        let ghost key = (line_no, fp as u64);

        let deltas: Vec<i64>;
        match found {
            Some(at) => {
                proof {
                    crate::assoc::lemma_assoc_lookup_at(self.line_map@, at as int);
                }
                let prior_len = self.line_map[at].1.values.len();
                if prior_len == total {
                    let mut d: Vec<i64> = Vec::new();
                    let mut q: usize = 0;
                    while q < total
                        invariant
                            q <= total,
                            total == numbers@.len(),
                            at < self.line_map@.len(),
                            self.line_map@[at as int].1.values@.len() == total,
                            d@ == Seq::new(
                                q as nat,
                                |x: int| numbers@[x].wrapping_sub(
                                    self.line_map@[at as int].1.values@[x],
                                ),
                            ),
                        decreases total - q,
                    {
                        d.push(numbers[q].wrapping_sub(self.line_map[at].1.values[q]));
                        proof {
                            assert(d@ =~= Seq::new(
                                (q + 1) as nat,
                                |x: int| numbers@[x].wrapping_sub(
                                    self.line_map@[at as int].1.values@[x],
                                ),
                            ));
                        }
                        q = q + 1;
                    }
                    deltas = d;
                } else {
                    deltas = zero_values(total);
                }
                proof {
                    assert(deltas@ =~= spec_new_deltas(
                        numbers@,
                        assoc_lookup(self.line_map@, key),
                    ));
                }
            },
            None => {
                proof {
                    crate::assoc::lemma_assoc_lookup_none(self.line_map@, key);
                }
                deltas = zero_values(total);
                proof {
                    assert(deltas@ =~= spec_new_deltas(
                        numbers@,
                        assoc_lookup(self.line_map@, key),
                    ));
                }
            },
        }

        let stored = LineNumbers {
            values: clone_values(&numbers),
            delta: clone_values(&deltas),
        };
        match found {
            Some(at) => {
                proof {
                    crate::assoc::lemma_assoc_update(self.line_map@, at as int, stored);
                }
                self.line_map[at] = ((line_no, fp), stored);
            },
            None => {
                proof {
                    crate::assoc::lemma_assoc_push(self.line_map@, key, stored);
                }
                self.line_map.push(((line_no, fp), stored));
            },
        }

        let stat = LineNumbers { values: numbers, delta: deltas };
        let num_first = ranges.len() > 0 && ranges[0].start == 0;
        let out = self.writeln_data(&strings, &stat, num_first, styles, num_no);
        Ok((out, total))
    }
}

/// A copy of a value vector.
fn clone_values(v: &Vec<i64>) -> (r: Vec<i64>)
    ensures
        r@ == v@,
{
    let n = v.len();
    let mut r: Vec<i64> = Vec::new();
    let mut k: usize = 0;
    while k < n
        invariant
            k <= n,
            n == v@.len(),
            r@ == v@.subrange(0, k as int),
        decreases n - k,
    {
        r.push(v[k]);
        proof {
            assert(r@ =~= v@.subrange(0, k + 1));
        }
        k = k + 1;
    }
    proof {
        assert(v@.subrange(0, n as int) =~= v@);
    }
    r
}

/// A vector of `n` zeros.
fn zero_values(n: usize) -> (r: Vec<i64>)
    ensures
        r@ == Seq::new(n as nat, |k: int| 0i64),
{
    let mut r: Vec<i64> = Vec::new();
    let mut k: usize = 0;
    while k < n
        invariant
            k <= n,
            r@ == Seq::new(k as nat, |j: int| 0i64),
        decreases n - k,
    {
        r.push(0);
        proof {
            assert(r@ =~= Seq::new((k + 1) as nat, |j: int| 0i64));
        }
        k = k + 1;
    }
    r
}

/// The text at `r` of `s`.
pub open spec fn spec_range_text(s: Seq<char>, r: Range<usize>) -> Seq<char> {
    s.subrange(r.start as int, r.end as int)
}

/// The texts of the gap ranges `gs` and the token ranges `rs` of `s`,
/// concatenated in the order of their offsets: at each step the piece
/// starting earlier comes first, a gap on a tie.
pub open spec fn spec_stitch(s: Seq<char>, gs: Seq<Range<usize>>, rs: Seq<Range<usize>>) -> Seq<
    char,
>
    decreases gs.len() + rs.len(),
{
    if gs.len() == 0 && rs.len() == 0 {
        Seq::empty()
    } else if rs.len() == 0 || (gs.len() > 0 && gs[0].start <= rs[0].start) {
        spec_range_text(s, gs[0]) + spec_stitch(s, gs.skip(1), rs)
    } else {
        spec_range_text(s, rs[0]) + spec_stitch(s, gs, rs.skip(1))
    }
}

/// Law: for any line, the literal complement chunks and the token
/// substrings, re-interleaved at their original offsets, reconstruct the
/// exact original line.
pub proof fn lemma_reconstruct_line(s: Seq<char>, rs: Seq<Range<usize>>)
    requires
        ranges_wf(rs, s.len() as int),
        s.len() <= usize::MAX,
    ensures
        spec_stitch(s, spec_complement(rs, 0, s.len() as int), rs) == s,
{
    lemma_stitch_from(s, rs, 0);
    assert(s.subrange(0, s.len() as int) =~= s);
}

/// The stitched texts from `first` on equal the line's tail from `first`.
proof fn lemma_stitch_from(s: Seq<char>, rs: Seq<Range<usize>>, first: int)
    requires
        ranges_wf(rs, s.len() as int),
        s.len() <= usize::MAX,
        0 <= first <= s.len(),
        rs.len() > 0 ==> first <= rs[0].start,
    ensures
        spec_stitch(s, spec_complement(rs, first, s.len() as int), rs) == s.subrange(
            first,
            s.len() as int,
        ),
    decreases rs.len(),
{
    let size = s.len() as int;
    let gs = spec_complement(rs, first, size);
    if rs.len() == 0 {
        if first != size {
            assert(gs =~= seq![Range { start: first as usize, end: size as usize }]);
            assert(gs.skip(1) =~= Seq::<Range<usize>>::empty());
            assert(spec_stitch(s, gs.skip(1), rs) == Seq::<char>::empty());
            assert(spec_stitch(s, gs, rs) == spec_range_text(s, gs[0]) + spec_stitch(
                s,
                gs.skip(1),
                rs,
            ));
            assert(spec_range_text(s, gs[0]) + Seq::<char>::empty() =~= s.subrange(first, size));
        } else {
            assert(s.subrange(first, size) =~= Seq::<char>::empty());
        }
    } else {
        let tail = rs.skip(1);
        assert(forall|k: int| 0 <= k < tail.len() ==> #[trigger] tail[k] == rs[k + 1]);
        let e = rs[0].end as int;
        let a = rs[0].start as int;
        let gs2 = spec_complement(tail, e, size);
        lemma_complement_wf(tail, e, size);
        lemma_stitch_from(s, tail, e);
        if first == a {
            assert(gs == gs2);
            if gs2.len() > 0 {
                assert(gs2[0].start >= e);
            }
            assert(spec_stitch(s, gs2, rs) == spec_range_text(s, rs[0]) + spec_stitch(
                s,
                gs2,
                tail,
            ));
            assert(s.subrange(a, e) + s.subrange(e, size) =~= s.subrange(first, size));
        } else {
            let g = Range { start: first as usize, end: rs[0].start };
            assert(gs == seq![g] + gs2);
            assert(gs[0] == g);
            assert(gs.skip(1) =~= gs2);
            assert(spec_stitch(s, gs, rs) == spec_range_text(s, g) + spec_stitch(s, gs2, rs));
            if gs2.len() > 0 {
                assert(gs2[0].start >= e);
            }
            assert(spec_stitch(s, gs2, rs) == spec_range_text(s, rs[0]) + spec_stitch(
                s,
                gs2,
                tail,
            ));
            assert(s.subrange(first, a) + (s.subrange(a, e) + s.subrange(e, size)) =~= s.subrange(
                first,
                size,
            ));
        }
    }
}

/// Law: the complement chunks and the tokens that the scanner finds in a
/// line tile it exactly: stitched back together at their offsets they
/// reconstruct the line.
pub proof fn lemma_scan_reconstructs(s: Seq<char>, seps: Seq<char>)
    requires
        s.len() <= usize::MAX,
    ensures
        ({
            let rs = spec_numeric_ranges(s, seps);
            spec_stitch(s, spec_complement(rs, 0, s.len() as int), rs) == s
        }),
{
    crate::ranges::lemma_scan_wf(s, seps, 0, crate::ranges::ScanState::AtSeparator, 0);
    lemma_reconstruct_line(s, spec_numeric_ranges(s, seps));
}

/// The inline text shown in place of a line whose token failed parsing.
pub open spec fn spec_line_error_message(e: LineError) -> Seq<char> {
    match e {
        LineError::TokenParse { start, end } => "failed to parse number in range "@
            + crate::text::spec_nat_string(start as nat) + ".."@ + crate::text::spec_nat_string(
            end as nat,
        ),
    }
}

impl LineError {
    /// The inline text of this failure, rendered in place of the line.
    pub fn message(&self) -> (r: String)
        ensures
            r@ == spec_line_error_message(*self),
    {
        match self {
            LineError::TokenParse { start, end } => {
                let mut s = String::new();
                s.append("failed to parse number in range ");
                let a = crate::text::u64_to_string(*start as u64);
                s.append(a.as_str());
                s.append("..");
                let b = crate::text::u64_to_string(*end as u64);
                s.append(b.as_str());
                proof {
                    assert(s@ =~= spec_line_error_message(*self));
                }
                s
            },
        }
    }
}

/// The deltas of a line against its prior stored values and deltas, if
/// any: positionwise differences where the token count is unchanged, zeros
/// otherwise.
pub open spec fn spec_new_deltas_abs(vals: Seq<i64>, prior: Option<(Seq<i64>, Seq<i64>)>) -> Seq<
    i64,
> {
    match prior {
        Some(p) => if p.0.len() == vals.len() {
            Seq::new(vals.len(), |k: int| vals[k].wrapping_sub(p.0[k]))
        } else {
            Seq::new(vals.len(), |k: int| 0i64)
        },
        None => Seq::new(vals.len(), |k: int| 0i64),
    }
}

/// The statistics that a map holds, by line key: each stored line's values
/// and deltas.
pub open spec fn stats_view(m: Seq<((usize, u64), LineNumbers)>) -> Map<
    (usize, u64),
    (Seq<i64>, Seq<i64>),
> {
    Map::new(
        |k: (usize, u64)| assoc_lookup(m, k) is Some,
        |k: (usize, u64)|
            {
                let st = assoc_lookup(m, k).unwrap();
                (st.values@, st.delta@)
            },
    )
}

/// The position of the first token of `rs` that fails to parse, from `k`
/// on; the length of `rs` where every token parses.
pub open spec fn spec_first_bad(line: Seq<char>, rs: Seq<Range<usize>>, k: int) -> int
    decreases rs.len() - k,
{
    if !(0 <= k < rs.len()) {
        k
    } else if spec_token_num(line, rs[k]) is None {
        k
    } else {
        spec_first_bad(line, rs, k + 1)
    }
}

/// A failing token with no failing token before it is the first failure.
proof fn lemma_first_bad_at(line: Seq<char>, rs: Seq<Range<usize>>, i: int, k: int)
    requires
        0 <= i <= k < rs.len(),
        spec_token_num(line, rs[k]) is None,
        forall|j: int| 0 <= j < k ==> spec_token_num(line, #[trigger] rs[j]) is Some,
    ensures
        spec_first_bad(line, rs, i) == k,
    decreases k - i,
{
    if i < k {
        lemma_first_bad_at(line, rs, i + 1, k);
    }
}

/// The total character count of the lines from `j` on.
pub open spec fn spec_total_chars(ls: Seq<Seq<char>>, j: int) -> int
    decreases ls.len() - j,
{
    if !(0 <= j < ls.len()) {
        0
    } else {
        ls[j].len() + spec_total_chars(ls, j + 1)
    }
}

/// The total character count never goes negative.
proof fn lemma_total_chars_nonneg(ls: Seq<Seq<char>>, j: int)
    ensures
        spec_total_chars(ls, j) >= 0,
    decreases ls.len() - j,
{
    if 0 <= j < ls.len() {
        lemma_total_chars_nonneg(ls, j + 1);
    }
}

/// What one pass renders for the lines of `ls` from position `j` on, given
/// the running token index `num_no` and the statistics `m` gathered by the
/// passes so far: the rendered text of each line in order (an inline error
/// text for a line whose token fails to parse), the total token count, and
/// the statistics left behind.
pub open spec fn spec_pass(
    ls: Seq<Seq<char>>,
    j: int,
    num_no: int,
    m: Map<(usize, u64), (Seq<i64>, Seq<i64>)>,
    seps: Seq<char>,
    o: Seq<(usize, usize)>,
    g: usize,
    f: Option<usize>,
    t: int,
) -> (Seq<Seq<char>>, int, Map<(usize, u64), (Seq<i64>, Seq<i64>)>)
    decreases ls.len() - j,
{
    if !(0 <= j < ls.len()) {
        (Seq::empty(), num_no, m)
    } else {
        let line = ls[j];
        let rs = spec_numeric_ranges(line, seps);
        let chunks = spec_chunks(line, rs);
        let key = ((j as usize), crate::text::spec_fingerprint(chunks));
        if forall|k: int| 0 <= k < rs.len() ==> spec_token_num(line, #[trigger] rs[k]) is Some {
            let vals = spec_line_nums(line, rs);
            let prior = if m.dom().contains(key) {
                Some(m[key])
            } else {
                None::<(Seq<i64>, Seq<i64>)>
            };
            let deltas = spec_new_deltas_abs(vals, prior);
            let body = spec_line_body(
                vals,
                deltas,
                chunks,
                rs.len() > 0 && rs[0].start == 0,
                o,
                g,
                f,
                num_no,
                t,
                0,
            );
            let rest = spec_pass(
                ls,
                j + 1,
                num_no + rs.len(),
                m.insert(key, (vals, deltas)),
                seps,
                o,
                g,
                f,
                t,
            );
            (seq![body] + rest.0, rest.1, rest.2)
        } else {
            let kb = spec_first_bad(line, rs, 0);
            let err = spec_line_error_message(
                LineError::TokenParse { start: rs[kb].start, end: rs[kb].end },
            );
            let rest = spec_pass(ls, j + 1, num_no, m, seps, o, g, f, t);
            (seq![err] + rest.0, rest.1, rest.2)
        }
    }
}

impl Dwatch {
    /// Renders one pass's lines: every line in order under one running
    /// line index and one running token index, each line tokenized,
    /// tracked and styled, a line whose token fails integer parsing
    /// rendered as an inline error text without disturbing the others.
    /// Returns the rendered lines and the pass's total token count.
    pub fn render_lines(&mut self, lines: &Vec<String>, styles: &Styles) -> (r: (
        Vec<String>,
        usize,
    ))
        requires
            old(self).wf(),
            styles.wf(),
            lines@.len() + spec_total_chars(lines@.map_values(|l: String| l@), 0) <= usize::MAX,
        ensures
            final(self).wf(),
            final(self).seps() == old(self).seps(),
            final(self).interval_ms() == old(self).interval_ms(),
            ({
                let fold = spec_pass(
                    lines@.map_values(|l: String| l@),
                    0,
                    0,
                    stats_view(old(self).map()),
                    old(self).seps(),
                    styles.spec_overrides(),
                    styles.spec_global(),
                    styles.spec_focus(),
                    old(self).interval_ms() as int,
                );
                &&& r.0@.map_values(|l: String| l@) == fold.0
                &&& r.1 == fold.1
                &&& stats_view(final(self).map()) == fold.2
            }),
    {
        let ghost ls = lines@.map_values(|l: String| l@);
        let ghost o = styles.spec_overrides();
        let ghost g = styles.spec_global();
        let ghost f = styles.spec_focus();
        let ghost t = self.interval_ms() as int;
        let ghost seps = self.seps();
        let ghost m0 = stats_view(self.map());
        let ghost full = spec_pass(ls, 0, 0, m0, seps, o, g, f, t);
        let n = lines.len();
        let mut out: Vec<String> = Vec::new();
        let mut num_no: usize = 0;
        let mut j: usize = 0;
        proof {
            assert(out@.map_values(|l: String| l@) =~= Seq::<Seq<char>>::empty());
            assert(Seq::<Seq<char>>::empty() + full.0 =~= full.0);
        }
        while j < n
            invariant
                j <= n,
                n == ls.len(),
                ls == lines@.map_values(|l: String| l@),
                self.wf(),
                styles.wf(),
                self.seps() == seps,
                self.interval_ms() as int == t,
                o == styles.spec_overrides(),
                g == styles.spec_global(),
                f == styles.spec_focus(),
                num_no + spec_total_chars(ls, j as int) + (n - j) <= usize::MAX,
                full == spec_pass(ls, 0, 0, m0, seps, o, g, f, t),
                ({
                    let rest = spec_pass(
                        ls,
                        j as int,
                        num_no as int,
                        stats_view(self.map()),
                        seps,
                        o,
                        g,
                        f,
                        t,
                    );
                    &&& full.0 == out@.map_values(|l: String| l@) + rest.0
                    &&& full.1 == rest.1
                    &&& full.2 == rest.2
                }),
            decreases n - j,
        {
            let ghost prev_src = self.map();
            let ghost prev_map = stats_view(self.map());
            let ghost outv = out@.map_values(|l: String| l@);
            let ghost rest_here = spec_pass(
                ls,
                j as int,
                num_no as int,
                prev_map,
                seps,
                o,
                g,
                f,
                t,
            );
            let line: &str = lines[j].as_str();
            let ghost lv = ls[j as int];
            let ghost rs = spec_numeric_ranges(lv, seps);
            let ghost chunks = spec_chunks(lv, rs);
            let ghost key = ((j as int as usize), crate::text::spec_fingerprint(chunks));
            proof {
                assert(lines@[j as int]@ == lv);
                lemma_total_chars_nonneg(ls, j + 1);
                assert(spec_total_chars(ls, j as int) == lv.len() + spec_total_chars(ls, j + 1));
                crate::ranges::lemma_scan_wf(lv, seps, 0, crate::ranges::ScanState::AtSeparator, 0);
                lemma_ranges_wf_count(rs, lv.len() as int);
            }
            match self.writeln_line(line, j, num_no, styles) {
                Ok((rendered, cnt)) => {
                    let ghost vals = spec_line_nums(lv, rs);
                    let ghost prior = if prev_map.dom().contains(key) {
                        Some(prev_map[key])
                    } else {
                        None::<(Seq<i64>, Seq<i64>)>
                    };
                    let ghost deltas = spec_new_deltas_abs(vals, prior);
                    proof {
                        // The stored and the abstract prior state agree.
                        match assoc_lookup(prev_src, key) {
                            Some(st) => {
                                assert(prev_map.dom().contains(key));
                                assert(prev_map[key] == (st.values@, st.delta@));
                                assert(deltas == spec_new_deltas(vals, Some(st)));
                            },
                            None => {
                                assert(!prev_map.dom().contains(key));
                                assert(deltas == spec_new_deltas(
                                    vals,
                                    None::<LineNumbers>,
                                ));
                            },
                        }
                        // The map after the update is the abstract insert.
                        assert(stats_view(self.map()) =~= prev_map.insert(key, (vals, deltas)));
                        // This line renders through the fold's first branch.
                        assert(rest_here.0 == seq![rendered@] + spec_pass(
                            ls,
                            j + 1,
                            num_no + cnt,
                            prev_map.insert(key, (vals, deltas)),
                            seps,
                            o,
                            g,
                            f,
                            t,
                        ).0);
                        assert(outv + rest_here.0 =~= (outv + seq![rendered@]) + spec_pass(
                            ls,
                            j + 1,
                            num_no + cnt,
                            prev_map.insert(key, (vals, deltas)),
                            seps,
                            o,
                            g,
                            f,
                            t,
                        ).0);
                    }
                    let ghost rv = rendered@;
                    out.push(rendered);
                    proof {
                        assert(out@.map_values(|l: String| l@) =~= outv + seq![rv]);
                    }
                    num_no = num_no + cnt;
                },
                Err(e) => {
                    proof {
                        let k = choose|k: int|
                            {
                                &&& 0 <= k < rs.len()
                                &&& spec_token_num(lv, #[trigger] rs[k]) is None
                                &&& forall|x: int|
                                    0 <= x < k ==> spec_token_num(lv, #[trigger] rs[x]) is Some
                                &&& e == (LineError::TokenParse {
                                    start: rs[k].start,
                                    end: rs[k].end,
                                })
                            };
                        lemma_first_bad_at(lv, rs, 0, k);
                        assert(!(forall|x: int|
                            0 <= x < rs.len() ==> spec_token_num(lv, #[trigger] rs[x]) is Some));
                        assert(rest_here.0 == seq![spec_line_error_message(e)] + spec_pass(
                            ls,
                            j + 1,
                            num_no as int,
                            prev_map,
                            seps,
                            o,
                            g,
                            f,
                            t,
                        ).0);
                    }
                    let text = e.message();
                    let ghost tv = text@;
                    out.push(text);
                    proof {
                        assert(out@.map_values(|l: String| l@) =~= outv + seq![tv]);
                        assert(outv + rest_here.0 =~= (outv + seq![tv]) + spec_pass(
                            ls,
                            j + 1,
                            num_no as int,
                            prev_map,
                            seps,
                            o,
                            g,
                            f,
                            t,
                        ).0);
                    }
                },
            }
            j = j + 1;
        }
        (out, num_no)
    }
}

} // verus!
