//! Small text utilities shared across the crate: building strings one
//! character at a time, decimal formatting of integers, whitespace
//! normalization, and the order-sensitive fingerprint of literal chunks.

use vstd::prelude::*;

verus! {

/// Relies on String::push: appends exactly the one character.
#[verifier::external_body]
pub(crate) fn push_char(s: &mut String, c: char)
    ensures
        final(s)@ == old(s)@.push(c),
{
    s.push(c)
}

/// The characters of `s`, as a vector.
pub(crate) fn str_to_chars(s: &str) -> (v: Vec<char>)
    ensures
        v@ == s@,
{
    let n = s.unicode_len();
    let mut v: Vec<char> = Vec::new();
    let mut i: usize = 0;
    while i < n
        invariant
            i <= n,
            n == s@.len(),
            v@ == s@.subrange(0, i as int),
        decreases n - i,
    {
        v.push(s.get_char(i));
        proof {
            assert(v@ =~= s@.subrange(0, i + 1));
        }
        i = i + 1;
    }
    proof {
        assert(s@.subrange(0, n as int) =~= s@);
    }
    v
}

/// The digit character of a value below ten.
pub open spec fn digit_char(d: int) -> char {
    if d == 0 {
        '0'
    } else if d == 1 {
        '1'
    } else if d == 2 {
        '2'
    } else if d == 3 {
        '3'
    } else if d == 4 {
        '4'
    } else if d == 5 {
        '5'
    } else if d == 6 {
        '6'
    } else if d == 7 {
        '7'
    } else if d == 8 {
        '8'
    } else {
        '9'
    }
}

/// The decimal representation of a natural number, most significant digit
/// first, without leading zeros (a single zero for zero itself).
pub open spec fn spec_nat_string(n: nat) -> Seq<char>
    decreases n,
{
    if n < 10 {
        seq![digit_char(n as int)]
    } else {
        spec_nat_string(n / 10).push(digit_char((n % 10) as int))
    }
}

/// The decimal representation of an integer: a minus sign before the
/// magnitude for negative values.
pub open spec fn spec_i64_string(v: int) -> Seq<char> {
    if v < 0 {
        seq!['-'] + spec_nat_string((-v) as nat)
    } else {
        spec_nat_string(v as nat)
    }
}

/// Decimal formatting of an unsigned value.
pub fn u64_to_string(n: u64) -> (s: String)
    ensures
        s@ == spec_nat_string(n as nat),
    decreases n,
{
    if n < 10 {
        let mut s = String::new();
        let c = (48 + n as u8) as char;
        proof {
            assert(c == digit_char(n as int));
        }
        push_char(&mut s, c);
        proof {
            assert(s@ =~= seq![digit_char(n as int)]);
        }
        s
    } else {
        let mut s = u64_to_string(n / 10);
        let c = (48 + (n % 10) as u8) as char;
        proof {
            assert(c == digit_char((n % 10) as int));
        }
        push_char(&mut s, c);
        s
    }
}

/// Decimal formatting of a signed value.
pub fn i64_to_string(v: i64) -> (s: String)
    ensures
        s@ == spec_i64_string(v as int),
{
    if v >= 0 {
        u64_to_string(v as u64)
    } else {
        let m: u64 = if v == i64::MIN {
            9223372036854775808u64
        } else {
            (-v) as u64
        };
        let mut s = String::new();
        push_char(&mut s, '-');
        let digits = u64_to_string(m);
        s.append(digits.as_str());
        proof {
            assert(s@ =~= seq!['-'] + spec_nat_string((-(v as int)) as nat));
        }
        s
    }
}

/// The multiplier of the 64-bit FNV-1a hash.
pub open spec fn fnv_prime() -> u64 {
    0x100000001b3
}

/// The offset basis of the 64-bit FNV-1a hash.
pub open spec fn fnv_basis() -> u64 {
    0xcbf29ce484222325
}

/// One step of the fingerprint: fold a value into the running hash.
pub open spec fn fp_step(h: u64, x: u64) -> u64 {
    (h ^ x).wrapping_mul(fnv_prime())
}

/// The hash after folding in the characters of `s` from position `i` on.
pub open spec fn fp_chars(h: u64, s: Seq<char>, i: int) -> u64
    decreases s.len() - i,
{
    if !(0 <= i < s.len()) {
        h
    } else {
        fp_chars(fp_step(h, s[i] as u64), s, i + 1)
    }
}

/// The hash after folding in a whole chunk: its characters in order, then
/// its length, so that chunk boundaries change the result.
pub open spec fn fp_chunk(h: u64, s: Seq<char>) -> u64 {
    fp_step(fp_chars(h, s, 0), s.len() as u64)
}

/// The hash after folding in the chunks of `cs` from position `k` on.
pub open spec fn fp_chunks(h: u64, cs: Seq<Seq<char>>, k: int) -> u64
    decreases cs.len() - k,
{
    if !(0 <= k < cs.len()) {
        h
    } else {
        fp_chunks(fp_chunk(h, cs[k]), cs, k + 1)
    }
}

/// The order-sensitive fingerprint of a sequence of literal chunks.
pub open spec fn spec_fingerprint(cs: Seq<Seq<char>>) -> u64 {
    fp_chunks(fnv_basis(), cs, 0)
}

/// Folds one chunk into the running hash: its characters, then its length.
fn fp_fold_chunk(h0: u64, chunk: &str) -> (h: u64)
    ensures
        h == fp_chunk(h0, chunk@),
{
    let n = chunk.unicode_len();
    let mut h = h0;
    let mut i: usize = 0;
    while i < n
        invariant
            i <= n,
            n == chunk@.len(),
            fp_chars(h0, chunk@, 0) == fp_chars(h, chunk@, i as int),
        decreases n - i,
    {
        let c = chunk.get_char(i);
        h = (h ^ c as u64).wrapping_mul(0x100000001b3);
        i = i + 1;
    }
    (h ^ n as u64).wrapping_mul(0x100000001b3)
}

/// The fingerprint of the given literal chunks: an order-sensitive 64-bit
/// hash folding in every character of every chunk and each chunk's length,
/// so that identical chunk sequences agree and a moved boundary changes
/// the result.
pub fn chunks_fingerprint(chunks: &Vec<String>) -> (h: u64)
    ensures
        h == spec_fingerprint(chunks@.map_values(|c: String| c@)),
{
    let ghost cs = chunks@.map_values(|c: String| c@);
    let mut h: u64 = 0xcbf29ce484222325;
    let nk = chunks.len();
    let mut k: usize = 0;
    while k < nk
        invariant
            k <= nk,
            nk == cs.len(),
            cs == chunks@.map_values(|c: String| c@),
            spec_fingerprint(cs) == fp_chunks(h, cs, k as int),
        decreases nk - k,
    {
        proof {
            assert(chunks@[k as int]@ == cs[k as int]);
        }
        h = fp_fold_chunk(h, chunks[k].as_str());
        k = k + 1;
    }
    h
}

/// Decimal formatting of a 128-bit unsigned value.
pub fn u128_to_string(n: u128) -> (s: String)
    ensures
        s@ == spec_nat_string(n as nat),
    decreases n,
{
    if n < 10 {
        let mut s = String::new();
        let c = (48 + n as u8) as char;
        proof {
            assert(c == digit_char(n as int));
        }
        push_char(&mut s, c);
        proof {
            assert(s@ =~= seq![digit_char(n as int)]);
        }
        s
    } else {
        let mut s = u128_to_string(n / 10);
        let c = (48 + (n % 10) as u8) as char;
        proof {
            assert(c == digit_char((n % 10) as int));
        }
        push_char(&mut s, c);
        s
    }
}

/// Law: the fingerprint is a function of the ordered literal chunks alone,
/// so identical chunk sequences always fingerprint equal.
pub proof fn lemma_fingerprint_of_equal_chunks(a: Seq<Seq<char>>, b: Seq<Seq<char>>)
    requires
        a == b,
    ensures
        spec_fingerprint(a) == spec_fingerprint(b),
{
}

} // verus!
