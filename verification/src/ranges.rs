//! The numeric tokenizer: a four-state scanner that finds the maximal
//! numeric substrings (an optional sign followed by digits, bounded by
//! separator characters or the string edges) of a line of text.

use vstd::prelude::*;

use core::ops::Range;

verus! {

/// The states of the numeric-token scanner.
#[derive(PartialEq, Eq, Structural, Clone, Copy, Debug)]
pub enum ScanState {
    /// Inside ordinary text: nothing can start until a separator is seen.
    Neutral,
    /// Just after a separator, or at the start of the line: a token may begin.
    AtSeparator,
    /// After a sign that followed a separator: digits must follow directly.
    AfterSign,
    /// Inside a run of digits that began after a separator.
    InDigits,
}

/// An ASCII decimal digit.
pub open spec fn is_digit(c: char) -> bool {
    '0' <= c && c <= '9'
}

/// A leading sign character.
pub open spec fn is_sign(c: char) -> bool {
    c == '-' || c == '+'
}

/// The token ranges that the scanner emits from position `i` to the end of
/// `s`, given the current state `st`, the separator characters `seps`, and
/// the start position `start` of the token being scanned (meaningful in the
/// `AfterSign` and `InDigits` states). A token still open at the end of the
/// string is closed by the string edge.
pub open spec fn spec_scan(
    s: Seq<char>,
    seps: Seq<char>,
    i: int,
    st: ScanState,
    start: int,
) -> Seq<Range<usize>>
    decreases s.len() - i,
{
    if !(0 <= i < s.len()) {
        if st is InDigits {
            seq![Range { start: start as usize, end: s.len() as usize }]
        } else {
            Seq::empty()
        }
    } else {
        let c = s[i];
        match st {
            ScanState::Neutral => {
                if seps.contains(c) {
                    spec_scan(s, seps, i + 1, ScanState::AtSeparator, start)
                } else {
                    spec_scan(s, seps, i + 1, ScanState::Neutral, start)
                }
            },
            ScanState::AtSeparator => {
                if is_digit(c) {
                    spec_scan(s, seps, i + 1, ScanState::InDigits, i)
                } else if is_sign(c) {
                    spec_scan(s, seps, i + 1, ScanState::AfterSign, i)
                } else if !seps.contains(c) {
                    spec_scan(s, seps, i + 1, ScanState::Neutral, start)
                } else {
                    spec_scan(s, seps, i + 1, ScanState::AtSeparator, start)
                }
            },
            ScanState::AfterSign => {
                if is_digit(c) {
                    spec_scan(s, seps, i + 1, ScanState::InDigits, start)
                } else if is_sign(c) {
                    spec_scan(s, seps, i + 1, ScanState::AfterSign, i)
                } else if seps.contains(c) {
                    spec_scan(s, seps, i + 1, ScanState::AtSeparator, start)
                } else {
                    spec_scan(s, seps, i + 1, ScanState::Neutral, start)
                }
            },
            ScanState::InDigits => {
                if seps.contains(c) {
                    seq![Range { start: start as usize, end: i as usize }] + spec_scan(
                        s,
                        seps,
                        i + 1,
                        ScanState::AtSeparator,
                        start,
                    )
                } else if is_digit(c) {
                    spec_scan(s, seps, i + 1, ScanState::InDigits, start)
                } else {
                    spec_scan(s, seps, i + 1, ScanState::Neutral, start)
                }
            },
        }
    }
}

/// The token ranges of a whole line: the scan starts at the line's first
/// character as if just after a separator.
pub open spec fn spec_numeric_ranges(s: Seq<char>, seps: Seq<char>) -> Seq<Range<usize>> {
    spec_scan(s, seps, 0, ScanState::AtSeparator, 0)
}

/// Ranges that are non-empty, within a string of length `size`, and
/// strictly ordered without overlap.
pub open spec fn ranges_wf(rs: Seq<Range<usize>>, size: int) -> bool {
    &&& forall|k: int| 0 <= k < rs.len() ==> (#[trigger] rs[k]).start < rs[k].end <= size
    &&& forall|k: int| 0 < k < rs.len() ==> (#[trigger] rs[k]).start >= rs[k - 1].end
}

/// Every scan result is well formed: each token is non-empty, lies within
/// the string, and the tokens are ordered and disjoint.
pub proof fn lemma_scan_wf(s: Seq<char>, seps: Seq<char>, i: int, st: ScanState, start: int)
    requires
        0 <= i <= s.len(),
        s.len() <= usize::MAX,
        (st is InDigits || st is AfterSign) ==> 0 <= start < i,
    ensures
        ranges_wf(spec_scan(s, seps, i, st, start), s.len() as int),
        ({
            let rs = spec_scan(s, seps, i, st, start);
            rs.len() > 0 ==> rs[0].start >= if st is InDigits || st is AfterSign {
                start
            } else {
                i
            }
        }),
    decreases s.len() - i,
{
    if 0 <= i < s.len() {
        let c = s[i];
        match st {
            ScanState::Neutral => {
                if seps.contains(c) {
                    lemma_scan_wf(s, seps, i + 1, ScanState::AtSeparator, start);
                } else {
                    lemma_scan_wf(s, seps, i + 1, ScanState::Neutral, start);
                }
            },
            ScanState::AtSeparator => {
                if is_digit(c) {
                    lemma_scan_wf(s, seps, i + 1, ScanState::InDigits, i);
                } else if is_sign(c) {
                    lemma_scan_wf(s, seps, i + 1, ScanState::AfterSign, i);
                } else if !seps.contains(c) {
                    lemma_scan_wf(s, seps, i + 1, ScanState::Neutral, start);
                } else {
                    lemma_scan_wf(s, seps, i + 1, ScanState::AtSeparator, start);
                }
            },
            ScanState::AfterSign => {
                if is_digit(c) {
                    lemma_scan_wf(s, seps, i + 1, ScanState::InDigits, start);
                } else if is_sign(c) {
                    lemma_scan_wf(s, seps, i + 1, ScanState::AfterSign, i);
                } else if seps.contains(c) {
                    lemma_scan_wf(s, seps, i + 1, ScanState::AtSeparator, start);
                } else {
                    lemma_scan_wf(s, seps, i + 1, ScanState::Neutral, start);
                }
            },
            ScanState::InDigits => {
                if seps.contains(c) {
                    lemma_scan_wf(s, seps, i + 1, ScanState::AtSeparator, start);
                } else if is_digit(c) {
                    lemma_scan_wf(s, seps, i + 1, ScanState::InDigits, start);
                } else {
                    lemma_scan_wf(s, seps, i + 1, ScanState::Neutral, start);
                }
            },
        }
    }
}

/// Finds the ordered, non-overlapping, maximal numeric token ranges of a
/// line, where tokens are bounded by the characters of a separator set.
pub struct RangeParser {
    separators: Vec<char>,
}

impl RangeParser {
    /// The separator characters this parser was built with.
    pub closed spec fn seps(&self) -> Seq<char> {
        self.separators@
    }

    /// A parser that treats exactly the given characters as boundaries.
    pub fn new(separators: Vec<char>) -> (r: RangeParser)
        ensures
            r.seps() == separators@,
    {
        RangeParser { separators }
    }

    /// Whether `c` is one of this parser's separator characters.
    fn is_separator(&self, c: char) -> (b: bool)
        ensures
            b == self.seps().contains(c),
    {
        let n = self.separators.len();
        let mut j: usize = 0;
        while j < n
            invariant
                j <= n,
                n == self.separators@.len(),
                forall|k: int| 0 <= k < j ==> self.separators@[k] != c,
            decreases n - j,
        {
            if self.separators[j] == c {
                return true;
            }
            j = j + 1;
        }
        false
    }

    /// The ordered maximal numeric token ranges of `s`. All positions are
    /// character positions into `s` (not byte offsets; the two agree on
    /// single-byte text), as everywhere in this crate. The result is
    /// exactly the scan of the grammar (an optional sign, then one or
    /// more digits, bounded on both sides by a separator or a string
    /// edge), and is well formed.
    pub fn get_numeric_ranges(&self, s: &str) -> (r: Vec<Range<usize>>)
        ensures
            r@ == spec_numeric_ranges(s@, self.seps()),
            ranges_wf(r@, s@.len() as int),
    {
        let n = s.unicode_len();
        let mut ranges: Vec<Range<usize>> = Vec::new();
        let mut state = ScanState::AtSeparator;
        let mut start: usize = 0;
        let mut i: usize = 0;

        proof {
            assert(ranges@ + spec_scan(s@, self.seps(), 0, ScanState::AtSeparator, 0)
                =~= spec_scan(s@, self.seps(), 0, ScanState::AtSeparator, 0));
        }

        while i < n
            invariant
                i <= n,
                n == s@.len(),
                (state is InDigits || state is AfterSign) ==> start < i,
                spec_numeric_ranges(s@, self.seps()) == ranges@ + spec_scan(
                    s@,
                    self.seps(),
                    i as int,
                    state,
                    start as int,
                ),
            decreases n - i,
        {
            let c = s.get_char(i);
            let sep = self.is_separator(c);
            let digit = '0' <= c && c <= '9';
            let sign = c == '-' || c == '+';
            match state {
                ScanState::Neutral => {
                    if sep {
                        state = ScanState::AtSeparator;
                    }
                },
                ScanState::AtSeparator => {
                    if digit {
                        state = ScanState::InDigits;
                        start = i;
                    } else if sign {
                        state = ScanState::AfterSign;
                        start = i;
                    } else if !sep {
                        state = ScanState::Neutral;
                    }
                },
                ScanState::AfterSign => {
                    if digit {
                        state = ScanState::InDigits;
                    } else if sign {
                        state = ScanState::AfterSign;
                        start = i;
                    } else if sep {
                        state = ScanState::AtSeparator;
                    } else {
                        state = ScanState::Neutral;
                    }
                },
                ScanState::InDigits => {
                    if sep {
                        ranges.push(Range { start, end: i });
                        state = ScanState::AtSeparator;
                    } else if !digit {
                        state = ScanState::Neutral;
                    }
                },
            }
            i = i + 1;
        }

        if let ScanState::InDigits = state {
            ranges.push(Range { start, end: n });
        }

        proof {
            lemma_scan_wf(s@, self.seps(), 0, ScanState::AtSeparator, 0);
        }
        ranges
    }
}

} // verus!
