//! The text form of a program: one hexadecimal instruction word per line,
//! with blank lines and `#` comments ignored.

use vstd::prelude::*;
use vstd::string::StringSliceAdditionalSpecFns;

verus! {

/// What one line of a program text holds.
#[derive(Debug, Clone, Copy, PartialEq, Eq, Structural)]
pub enum ProgramLine {
    /// Nothing but white space or a comment.
    Blank,
    /// An instruction word.
    Word(u32),
    /// Text that is not a hexadecimal word.
    Malformed,
}

/// ASCII white space: space, tab, line feed, vertical tab, form feed,
/// carriage return.
pub open spec fn is_space(b: u8) -> bool {
    b == 32 || (9 <= b && b <= 13)
}

/// The value of a hexadecimal digit (either case), if `b` is one.
pub open spec fn hex_digit(b: u8) -> Option<nat> {
    if 48 <= b <= 57 {
        Some((b - 48) as nat)
    } else if 97 <= b <= 102 {
        Some((b - 87) as nat)
    } else if 65 <= b <= 70 {
        Some((b - 55) as nat)
    } else {
        None
    }
}

/// Whether every byte of `s` is a hexadecimal digit.
pub open spec fn all_hex(s: Seq<u8>) -> bool {
    forall|i: int| 0 <= i < s.len() ==> (#[trigger] hex_digit(s[i])) is Some
}

/// The number the hexadecimal digits `s` spell.
pub open spec fn hex_value(s: Seq<u8>) -> nat
    decreases s.len(),
{
    if s.len() == 0 {
        0
    } else {
        hex_value(s.drop_last()) * 16 + match hex_digit(s.last()) {
            Some(d) => d,
            None => 0,
        }
    }
}

/// A 32-bit word written in hexadecimal, with an optional leading `+`, as
/// `u32::from_str_radix(_, 16)` reads it: at least one digit, and a value
/// that fits.
pub open spec fn parse_hex_word(s: Seq<u8>) -> Option<u32> {
    let digits = if s.len() > 1 && s[0] == 43 {
        s.drop_first()
    } else {
        s
    };
    if digits.len() > 0 && all_hex(digits) && hex_value(digits) <= u32::MAX {
        Some(hex_value(digits) as u32)
    } else {
        None
    }
}

/// The first index from `i` on that does not hold white space.
pub open spec fn skip_space(s: Seq<u8>, i: int) -> int
    decreases s.len() - i,
{
    if 0 <= i < s.len() && is_space(s[i]) {
        skip_space(s, i + 1)
    } else {
        i
    }
}

/// The end of `s[lo..j]` with trailing white space removed.
pub open spec fn trim_end(s: Seq<u8>, lo: int, j: int) -> int
    decreases j - lo,
{
    if lo < j && is_space(s[j - 1]) {
        trim_end(s, lo, j - 1)
    } else {
        j
    }
}

/// The first index in `i..end` that holds `#`, or `end`.
pub open spec fn find_hash(s: Seq<u8>, i: int, end: int) -> int
    decreases end - i,
{
    if i < end && s[i] != 35 {
        find_hash(s, i + 1, end)
    } else {
        i
    }
}

/// What a line holds: blank when it is empty or a comment once white space
/// is trimmed; otherwise the text before any `#`, trimmed, must be a
/// hexadecimal word.
pub open spec fn spec_parse_line(s: Seq<u8>) -> ProgramLine {
    let a = skip_space(s, 0);
    let e = trim_end(s, a, s.len() as int);
    if a == e || s[a] == 35 {
        ProgramLine::Blank
    } else {
        match parse_hex_word(s.subrange(a, trim_end(s, a, find_hash(s, a, e)))) {
            Some(w) => ProgramLine::Word(w),
            None => ProgramLine::Malformed,
        }
    }
}

/// Digits added after a prefix never make a hexadecimal number smaller.
pub proof fn lemma_hex_value_grows(s: Seq<u8>, n: int)
    requires
        0 <= n <= s.len(),
    ensures
        hex_value(s.take(n)) <= hex_value(s),
    decreases s.len(),
{
    if n < s.len() {
        lemma_hex_value_grows(s.drop_last(), n);
        assert(s.drop_last().take(n) =~= s.take(n));
    } else {
        assert(s.take(n) =~= s);
    }
}

fn is_space_byte(b: u8) -> (r: bool)
    ensures
        r == is_space(b),
{
    b == 32 || (9 <= b && b <= 13)
}

fn hex_digit_of(b: u8) -> (r: Option<u64>)
    ensures
        r is Some <==> hex_digit(b) is Some,
        r is Some ==> r->Some_0 == hex_digit(b)->Some_0,
{
    if 48 <= b && b <= 57 {
        Some((b - 48) as u64)
    } else if 97 <= b && b <= 102 {
        Some((b - 87) as u64)
    } else if 65 <= b && b <= 70 {
        Some((b - 55) as u64)
    } else {
        None
    }
}

pub(crate) fn skip_space_from(s: &[u8], i: usize) -> (r: usize)
    requires
        i <= s@.len(),
    ensures
        r == skip_space(s@, i as int),
        i <= r <= s@.len(),
{
    let mut j = i;
    while j < s.len() && is_space_byte(s[j])
        invariant
            i <= j <= s@.len(),
            skip_space(s@, i as int) == skip_space(s@, j as int),
        decreases s@.len() - j,
    {
        j = j + 1;
    }
    j
}

pub(crate) fn trim_end_from(s: &[u8], lo: usize, j: usize) -> (r: usize)
    requires
        lo <= j <= s@.len(),
    ensures
        r == trim_end(s@, lo as int, j as int),
        lo <= r <= j,
{
    let mut k = j;
    while k > lo && is_space_byte(s[k - 1])
        invariant
            lo <= k <= j,
            j <= s@.len(),
            trim_end(s@, lo as int, j as int) == trim_end(s@, lo as int, k as int),
        decreases k,
    {
        k = k - 1;
    }
    k
}

fn find_hash_from(s: &[u8], i: usize, end: usize) -> (r: usize)
    requires
        i <= end <= s@.len(),
    ensures
        r == find_hash(s@, i as int, end as int),
        i <= r <= end,
{
    let mut k = i;
    while k < end && s[k] != 35
        invariant
            i <= k <= end,
            end <= s@.len(),
            find_hash(s@, i as int, end as int) == find_hash(s@, k as int, end as int),
        decreases end - k,
    {
        k = k + 1;
    }
    k
}

fn parse_hex_word_in(s: &[u8], lo: usize, hi: usize) -> (r: Option<u32>)
    requires
        lo <= hi <= s@.len(),
    ensures
        r == parse_hex_word(s@.subrange(lo as int, hi as int)),
{
    let ghost text = s@.subrange(lo as int, hi as int);
    let mut start = lo;
    if hi - lo > 1 && s[lo] == 43 {
        start = lo + 1;
    }
    let ghost digits = s@.subrange(start as int, hi as int);
    assert(digits == if text.len() > 1 && text[0] == 43 {
        text.drop_first()
    } else {
        text
    });
    if start == hi {
        return None;
    }
    let mut value: u64 = 0;
    let mut k = start;
    while k < hi
        invariant
            start <= k <= hi <= s@.len(),
            start < hi,
            text == s@.subrange(lo as int, hi as int),
            digits == (if text.len() > 1 && text[0] == 43 {
                text.drop_first()
            } else {
                text
            }),
            digits == s@.subrange(start as int, hi as int),
            digits.take(k - start) == s@.subrange(start as int, k as int),
            all_hex(s@.subrange(start as int, k as int)),
            value == hex_value(s@.subrange(start as int, k as int)),
            value <= u32::MAX,
        decreases hi - k,
    {
        match hex_digit_of(s[k]) {
            None => {
                assert(hex_digit(digits[k - start]) is None);
                return None;
            },
            Some(d) => {
                let ghost before = s@.subrange(start as int, k as int);
                let ghost after = s@.subrange(start as int, k + 1);
                assert(after.drop_last() =~= before);
                value = value * 16 + d;
                if value > 0xffff_ffff {
                    proof {
                        if all_hex(digits) {
                            assert(digits.take(k + 1 - start) =~= after);
                            lemma_hex_value_grows(digits, k + 1 - start);
                        }
                    }
                    return None;
                }
                k = k + 1;
                proof {
                    assert(digits.take(k - start) =~= s@.subrange(start as int, k as int));
                }
            },
        }
    }
    assert(digits =~= s@.subrange(start as int, k as int));
    Some(value as u32)
}

/// Reads one line of a program text.
pub fn parse_program_line(line: &str) -> (r: ProgramLine)
    ensures
        r == spec_parse_line(line.spec_bytes()),
{
    let s = line.as_bytes();
    let a = skip_space_from(s, 0);
    let e = trim_end_from(s, a, s.len());
    if a == e || s[a] == 35 {
        return ProgramLine::Blank;
    }
    let h = find_hash_from(s, a, e);
    let end = trim_end_from(s, a, h);
    match parse_hex_word_in(s, a, end) {
        Some(w) => ProgramLine::Word(w),
        None => ProgramLine::Malformed,
    }
}

} // verus!
