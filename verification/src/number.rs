//! Decimal integers in text: reading them as `str::parse` does for the
//! integer types, and writing them as `Display` does.
use vstd::prelude::*;
use crate::text;

verus! {

/// Every character of `s` is an ASCII digit.
pub open spec fn all_digits(s: Seq<char>) -> bool {
    forall|i: int| 0 <= i < s.len() ==> text::is_digit(#[trigger] s[i])
}

/// The number written by the digits `s` (most significant first).
pub open spec fn digits_value(s: Seq<char>) -> nat
    decreases s.len(),
{
    if s.len() == 0 {
        0
    } else {
        digits_value(s.drop_last()) * 10 + text::digit_value(s.last())
    }
}

/// The magnitude read by an unsigned `FromStr`: an optional `'+'` followed
/// by one or more ASCII digits, and nothing else.
pub open spec fn unsigned_magnitude(s: Seq<char>) -> Option<nat> {
    let d = if s.len() > 0 && s[0] == '+' {
        s.drop_first()
    } else {
        s
    };
    if d.len() > 0 && all_digits(d) {
        Some(digits_value(d))
    } else {
        None
    }
}

/// `s.parse::<u64>().ok()`.
pub open spec fn parse_u64(s: Seq<char>) -> Option<u64> {
    match unsigned_magnitude(s) {
        Some(m) => if m <= u64::MAX {
            Some(m as u64)
        } else {
            None
        },
        None => None,
    }
}

/// `s.parse::<u32>().ok()`.
pub open spec fn parse_u32(s: Seq<char>) -> Option<u32> {
    match unsigned_magnitude(s) {
        Some(m) => if m <= u32::MAX {
            Some(m as u32)
        } else {
            None
        },
        None => None,
    }
}

/// `s.parse::<usize>().ok()`.
pub open spec fn parse_usize(s: Seq<char>) -> Option<usize> {
    match unsigned_magnitude(s) {
        Some(m) => if m <= usize::MAX {
            Some(m as usize)
        } else {
            None
        },
        None => None,
    }
}

/// `s.parse::<i64>().ok()`: an optional sign followed by one or more ASCII
/// digits, within the range of `i64`.
pub open spec fn parse_i64(s: Seq<char>) -> Option<i64> {
    if s.len() > 0 && s[0] == '-' {
        let d = s.drop_first();
        if d.len() > 0 && all_digits(d) && digits_value(d) <= 0x8000_0000_0000_0000 {
            Some((0 - digits_value(d)) as i64)
        } else {
            None
        }
    } else {
        match unsigned_magnitude(s) {
            Some(m) => if m <= i64::MAX {
                Some(m as i64)
            } else {
                None
            },
            None => None,
        }
    }
}

/// The digits of a number do not decrease in value as more of them are read.
pub proof fn lemma_digits_prefix_le(s: Seq<char>, i: int)
    requires
        0 <= i <= s.len(),
    ensures
        digits_value(s.subrange(0, i)) <= digits_value(s),
    decreases s.len(),
{
    if i < s.len() {
        lemma_digits_prefix_le(s.drop_last(), i);
        assert(s.drop_last().subrange(0, i) =~= s.subrange(0, i));
    } else {
        assert(s.subrange(0, i) =~= s);
    }
}

/// Reads the digits `v[lo..hi]`; `None` unless there is at least one, all
/// are ASCII digits and their value is at most `limit`.
pub fn digits_in_range(v: &Vec<char>, lo: usize, hi: usize, limit: u64) -> (r: Option<u64>)
    requires
        lo <= hi <= v@.len(),
    ensures
        r == (if lo < hi && all_digits(v@.subrange(lo as int, hi as int)) && digits_value(
            v@.subrange(lo as int, hi as int),
        ) <= limit {
            Some(digits_value(v@.subrange(lo as int, hi as int)) as u64)
        } else {
            None
        }),
{
    let ghost s = v@.subrange(lo as int, hi as int);
    if lo == hi {
        return None;
    }
    let mut acc: u64 = 0;
    let mut i = lo;
    assert(s.subrange(0, 0) =~= Seq::<char>::empty());
    while i < hi
        invariant
            lo <= i <= hi <= v@.len(),
            s == v@.subrange(lo as int, hi as int),
            all_digits(s.subrange(0, i - lo)),
            acc as nat == digits_value(s.subrange(0, i - lo)),
            acc <= limit,
        decreases hi - i,
    {
        let c = v[i];
        assert(s[i - lo] == c);
        if !('0' <= c && c <= '9') {
            assert(!all_digits(s));
            return None;
        }
        let d = (c as u32 - '0' as u32) as u64;
        assert(s.subrange(0, i + 1 - lo).drop_last() =~= s.subrange(0, i - lo));
        assert(s.subrange(0, i + 1 - lo).last() == c);
        let next: u128 = acc as u128 * 10 + d as u128;
        if next > limit as u128 {
            proof {
                if all_digits(s) {
                    lemma_digits_prefix_le(s, i + 1 - lo);
                }
            }
            return None;
        }
        acc = next as u64;
        i = i + 1;
    }
    assert(s.subrange(0, hi - lo) =~= s);
    Some(acc)
}

/// The magnitude after an optional leading `'+'`, read from `v[lo..hi]`.
fn unsigned_in_range(v: &Vec<char>, lo: usize, hi: usize, limit: u64) -> (r: Option<u64>)
    requires
        lo <= hi <= v@.len(),
    ensures
        r == (match unsigned_magnitude(v@.subrange(lo as int, hi as int)) {
            Some(m) => if m <= limit {
                Some(m as u64)
            } else {
                None
            },
            None => None,
        }),
{
    if lo < hi && v[lo] == '+' {
        assert(v@.subrange(lo as int, hi as int).drop_first() =~= v@.subrange(lo + 1, hi as int));
        digits_in_range(v, lo + 1, hi, limit)
    } else {
        digits_in_range(v, lo, hi, limit)
    }
}

/// `v[lo..hi].parse::<u64>().ok()`.
pub fn parse_u64_range(v: &Vec<char>, lo: usize, hi: usize) -> (r: Option<u64>)
    requires
        lo <= hi <= v@.len(),
    ensures
        r == parse_u64(v@.subrange(lo as int, hi as int)),
{
    unsigned_in_range(v, lo, hi, u64::MAX)
}

/// `v[lo..hi].parse::<u32>().ok()`.
pub fn parse_u32_range(v: &Vec<char>, lo: usize, hi: usize) -> (r: Option<u32>)
    requires
        lo <= hi <= v@.len(),
    ensures
        r == parse_u32(v@.subrange(lo as int, hi as int)),
{
    match unsigned_in_range(v, lo, hi, 0xffff_ffff) {
        Some(m) => Some(m as u32),
        None => None,
    }
}

/// `v[lo..hi].parse::<usize>().ok()`.
pub fn parse_usize_range(v: &Vec<char>, lo: usize, hi: usize) -> (r: Option<usize>)
    requires
        lo <= hi <= v@.len(),
    ensures
        r == parse_usize(v@.subrange(lo as int, hi as int)),
{
    match unsigned_in_range(v, lo, hi, usize::MAX as u64) {
        Some(m) => Some(m as usize),
        None => None,
    }
}

/// `v[lo..hi].parse::<i64>().ok()`.
pub fn parse_i64_range(v: &Vec<char>, lo: usize, hi: usize) -> (r: Option<i64>)
    requires
        lo <= hi <= v@.len(),
    ensures
        r == parse_i64(v@.subrange(lo as int, hi as int)),
{
    if lo < hi && v[lo] == '-' {
        assert(v@.subrange(lo as int, hi as int).drop_first() =~= v@.subrange(lo + 1, hi as int));
        match digits_in_range(v, lo + 1, hi, 0x8000_0000_0000_0000) {
            Some(m) => {
                if m == 0x8000_0000_0000_0000 {
                    Some(i64::MIN)
                } else {
                    Some(0 - (m as i64))
                }
            },
            None => None,
        }
    } else {
        match unsigned_in_range(v, lo, hi, 0x7fff_ffff_ffff_ffff) {
            Some(m) => Some(m as i64),
            None => None,
        }
    }
}

/// `s.trim().parse::<u64>().ok()`.
pub open spec fn parse_trimmed_u64(s: Seq<char>) -> Option<u64> {
    parse_u64(text::trim(s))
}

/// Reads a counter file's contents: `s.trim().parse::<u64>().ok()`.
pub fn parse_trimmed(s: &str) -> (r: Option<u64>)
    ensures
        r == parse_trimmed_u64(s@),
{
    let v = text::chars_of(s);
    assert(v@.subrange(0, v@.len() as int) =~= v@);
    let (a, b) = text::trim_range(&v, 0, v.len());
    parse_u64_range(&v, a, b)
}

// ---------------------------------------------------------------------------
// Writing numbers
// ---------------------------------------------------------------------------

/// The character of a decimal digit.
pub open spec fn digit_char(d: nat) -> char {
    if d == 0 {
        '0'
    } else if d == 1 {
        '1'
    } else if d == 2 {
        '2'
    } else if d == 3 {
        '3'
    } else if d == 4 {
        '4'
    } else if d == 5 {
        '5'
    } else if d == 6 {
        '6'
    } else if d == 7 {
        '7'
    } else if d == 8 {
        '8'
    } else {
        '9'
    }
}

/// `n.to_string()`: the decimal digits of `n`, without leading zeros.
pub open spec fn decimal(n: nat) -> Seq<char>
    decreases n,
{
    if n < 10 {
        seq![digit_char(n)]
    } else {
        decimal(n / 10).push(digit_char(n % 10))
    }
}

fn digit_to_char(d: u64) -> (c: char)
    requires
        d < 10,
    ensures
        c == digit_char(d as nat),
{
    if d == 0 {
        '0'
    } else if d == 1 {
        '1'
    } else if d == 2 {
        '2'
    } else if d == 3 {
        '3'
    } else if d == 4 {
        '4'
    } else if d == 5 {
        '5'
    } else if d == 6 {
        '6'
    } else if d == 7 {
        '7'
    } else if d == 8 {
        '8'
    } else {
        '9'
    }
}

/// Appends the decimal digits of `n` to `s`, as `write!(s, "{n}")` does.
pub fn push_decimal(s: &mut String, n: u64)
    ensures
        final(s)@ == old(s)@ + decimal(n as nat),
    decreases n,
{
    if n >= 10 {
        push_decimal(s, n / 10);
    }
    let c = digit_to_char(n % 10);
    let v: Vec<char> = vec![c];
    text::push_range(s, &v, 0, 1);
    assert(v@.subrange(0, 1) =~= seq![c]);
    proof {
        if n >= 10 {
            assert(decimal(n as nat) == decimal((n / 10) as nat).push(c));
            assert(old(s)@ + decimal(n as nat) =~= old(s)@ + decimal((n / 10) as nat) + seq![c]);
        } else {
            assert(decimal(n as nat) == seq![c]);
        }
    }
}

} // verus!
