//! Character-level text handling with the semantics of `str`'s methods
//! (`trim`, `split`, `split_whitespace`, `lines`, `starts_with`, ...).
//!
//! Text is held as a `Vec<char>` and pieces of it as index ranges into that
//! vector; every function states its result over the `Seq<char>` model.
use vstd::prelude::*;

verus! {

// ---------------------------------------------------------------------------
// Character classes
// ---------------------------------------------------------------------------

/// `char::is_whitespace`: the Unicode `White_Space` property.
pub open spec fn is_space(c: char) -> bool {
    let u = c as u32;
    ||| 0x09 <= u <= 0x0d
    ||| u == 0x20
    ||| u == 0x85
    ||| u == 0xa0
    ||| u == 0x1680
    ||| 0x2000 <= u <= 0x200a
    ||| u == 0x2028
    ||| u == 0x2029
    ||| u == 0x202f
    ||| u == 0x205f
    ||| u == 0x3000
}

/// An ASCII decimal digit.
pub open spec fn is_digit(c: char) -> bool {
    '0' <= c <= '9'
}

/// The value of an ASCII decimal digit.
pub open spec fn digit_value(c: char) -> nat {
    (c as u32 - '0' as u32) as nat
}

/// Whitespace test with the meaning of `char::is_whitespace`.
pub fn char_is_space(c: char) -> (r: bool)
    ensures
        r == is_space(c),
{
    let u = c as u32;
    (0x09 <= u && u <= 0x0d) || u == 0x20 || u == 0x85 || u == 0xa0 || u == 0x1680 || (0x2000
        <= u && u <= 0x200a) || u == 0x2028 || u == 0x2029 || u == 0x202f || u == 0x205f || u
        == 0x3000
}

// ---------------------------------------------------------------------------
// Prefixes, suffixes, substrings
// ---------------------------------------------------------------------------

/// `s.starts_with(p)`.
pub open spec fn starts_with(s: Seq<char>, p: Seq<char>) -> bool {
    p.len() <= s.len() && s.subrange(0, p.len() as int) == p
}

/// `s.ends_with(p)`.
pub open spec fn ends_with(s: Seq<char>, p: Seq<char>) -> bool {
    p.len() <= s.len() && s.subrange(s.len() - p.len(), s.len() as int) == p
}

/// `p` occurs in `s` at position `i`.
pub open spec fn occurs_at(s: Seq<char>, p: Seq<char>, i: int) -> bool {
    0 <= i && i + p.len() <= s.len() && s.subrange(i, i + p.len()) == p
}

/// `s.contains(p)`.
pub open spec fn contains(s: Seq<char>, p: Seq<char>) -> bool {
    exists|i: int| occurs_at(s, p, i)
}

/// Whether `p` occurs at position `at` of `v`, comparing character by character.
pub fn matches_at(v: &Vec<char>, at: usize, p: &Vec<char>) -> (r: bool)
    ensures
        r == occurs_at(v@, p@, at as int),
{
    if p.len() > v.len() || at > v.len() - p.len() {
        return false;
    }
    let mut k: usize = 0;
    let n = v.len();
    while k < p.len()
        invariant
            n == v@.len(),
            at + p@.len() <= v@.len(),
            0 <= k <= p@.len(),
            forall|j: int| 0 <= j < k ==> v@[at + j] == p@[j],
        decreases p@.len() - k,
    {
        assert(at + k < v@.len());
        if v[at + k] != p[k] {
            assert(v@.subrange(at as int, at + p@.len())[k as int] != p@[k as int]);
            return false;
        }
        k = k + 1;
    }
    assert(v@.subrange(at as int, at + p@.len()) =~= p@);
    true
}

/// `s.starts_with(p)` over the range `lo..hi` of `v`.
pub fn range_starts_with(v: &Vec<char>, lo: usize, hi: usize, p: &Vec<char>) -> (r: bool)
    requires
        lo <= hi <= v@.len(),
    ensures
        r == starts_with(v@.subrange(lo as int, hi as int), p@),
{
    if p.len() > hi - lo {
        return false;
    }
    let r = matches_at(v, lo, p);
    assert(v@.subrange(lo as int, hi as int).subrange(0, p@.len() as int) =~= v@.subrange(
        lo as int,
        lo + p@.len(),
    ));
    r
}

/// `s.ends_with(p)` over the range `lo..hi` of `v`.
pub fn range_ends_with(v: &Vec<char>, lo: usize, hi: usize, p: &Vec<char>) -> (r: bool)
    requires
        lo <= hi <= v@.len(),
    ensures
        r == ends_with(v@.subrange(lo as int, hi as int), p@),
{
    if p.len() > hi - lo {
        return false;
    }
    let r = matches_at(v, hi - p.len(), p);
    let ghost s = v@.subrange(lo as int, hi as int);
    assert(s.subrange(s.len() - p@.len(), s.len() as int) =~= v@.subrange(
        hi - p@.len(),
        hi as int,
    ));
    r
}

/// `s.contains(p)` over the range `lo..hi` of `v`.
pub fn range_contains(v: &Vec<char>, lo: usize, hi: usize, p: &Vec<char>) -> (r: bool)
    requires
        lo <= hi <= v@.len(),
    ensures
        r == contains(v@.subrange(lo as int, hi as int), p@),
{
    let ghost s = v@.subrange(lo as int, hi as int);
    if p.len() > hi - lo {
        assert forall|i: int| !occurs_at(s, p@, i) by {}
        return false;
    }
    let last = hi - p.len();
    let mut at = lo;
    loop
        invariant
            lo <= at <= last,
            last + p@.len() == hi,
            hi <= v@.len(),
            s == v@.subrange(lo as int, hi as int),
            forall|i: int| 0 <= i < at - lo ==> !occurs_at(s, p@, i),
        ensures
            at == last,
            forall|i: int| 0 <= i <= at - lo ==> !occurs_at(s, p@, i),
        decreases last - at,
    {
        assert(s.subrange(at - lo, at - lo + p@.len()) =~= v@.subrange(
            at as int,
            at + p@.len(),
        ));
        if matches_at(v, at, p) {
            assert(occurs_at(s, p@, at - lo));
            return true;
        }
        if at == last {
            break;
        }
        at = at + 1;
    }
    assert forall|i: int| !occurs_at(s, p@, i) by {
        if 0 <= i <= at - lo {
        }
    }
    false
}

// ---------------------------------------------------------------------------
// Trimming
// ---------------------------------------------------------------------------

/// `s.trim_start()`.
pub open spec fn trim_start(s: Seq<char>) -> Seq<char>
    decreases s.len(),
{
    if s.len() > 0 && is_space(s[0]) {
        trim_start(s.drop_first())
    } else {
        s
    }
}

/// `s.trim_end()`.
pub open spec fn trim_end(s: Seq<char>) -> Seq<char>
    decreases s.len(),
{
    if s.len() > 0 && is_space(s.last()) {
        trim_end(s.drop_last())
    } else {
        s
    }
}

/// `s.trim()`.
pub open spec fn trim(s: Seq<char>) -> Seq<char> {
    trim_end(trim_start(s))
}

/// The range of `v[lo..hi]` left once surrounding whitespace is trimmed.
pub fn trim_range(v: &Vec<char>, lo: usize, hi: usize) -> (r: (usize, usize))
    requires
        lo <= hi <= v@.len(),
    ensures
        lo <= r.0 <= r.1 <= hi,
        v@.subrange(r.0 as int, r.1 as int) == trim(v@.subrange(lo as int, hi as int)),
{
    let mut a = lo;
    while a < hi && char_is_space(v[a])
        invariant
            lo <= a <= hi <= v@.len(),
            trim_start(v@.subrange(lo as int, hi as int)) == trim_start(
                v@.subrange(a as int, hi as int),
            ),
        decreases hi - a,
    {
        assert(v@.subrange(a as int, hi as int).drop_first() =~= v@.subrange(a + 1, hi as int));
        a = a + 1;
    }
    let mut b = hi;
    while b > a && char_is_space(v[b - 1])
        invariant
            lo <= a <= b <= hi <= v@.len(),
            trim(v@.subrange(lo as int, hi as int)) == trim_end(v@.subrange(a as int, b as int)),
        decreases b - a,
    {
        assert(v@.subrange(a as int, b as int).drop_last() =~= v@.subrange(a as int, b - 1));
        b = b - 1;
    }
    (a, b)
}

// ---------------------------------------------------------------------------
// Splitting
// ---------------------------------------------------------------------------

/// What separates the pieces of a split.
#[derive(Clone, Copy, PartialEq, Eq, Debug)]
pub enum Sep {
    /// One given character, as in `s.split(c)`.
    Char(char),
    /// Any whitespace character, as in `s.split(char::is_whitespace)`.
    Space,
}

/// Whether `c` separates pieces under `sep`.
pub open spec fn is_sep(sep: Sep, c: char) -> bool {
    match sep {
        Sep::Char(x) => c == x,
        Sep::Space => is_space(c),
    }
}

/// Separator test in executable code.
pub fn char_is_sep(sep: Sep, c: char) -> (r: bool)
    ensures
        r == is_sep(sep, c),
{
    match sep {
        Sep::Char(x) => c == x,
        Sep::Space => char_is_space(c),
    }
}

/// `s.split(sep)`: the pieces between separators, always at least one.
pub open spec fn split(s: Seq<char>, sep: Sep) -> Seq<Seq<char>>
    decreases s.len(),
{
    if s.len() == 0 {
        seq![Seq::empty()]
    } else {
        let r = split(s.drop_last(), sep);
        if is_sep(sep, s.last()) {
            r.push(Seq::empty())
        } else {
            r.update(r.len() - 1, r.last().push(s.last()))
        }
    }
}

/// A split always has at least one piece.
pub proof fn lemma_split_nonempty(s: Seq<char>, sep: Sep)
    ensures
        split(s, sep).len() >= 1,
    decreases s.len(),
{
    if s.len() > 0 {
        lemma_split_nonempty(s.drop_last(), sep);
    }
}

/// The pieces of `ps` that are not empty, in order.
pub open spec fn non_empty(ps: Seq<Seq<char>>) -> Seq<Seq<char>>
    decreases ps.len(),
{
    if ps.len() == 0 {
        Seq::empty()
    } else if ps.last().len() == 0 {
        non_empty(ps.drop_last())
    } else {
        non_empty(ps.drop_last()).push(ps.last())
    }
}

/// `s.split_whitespace()`.
pub open spec fn words(s: Seq<char>) -> Seq<Seq<char>> {
    non_empty(split(s, Sep::Space))
}

/// `s.split(c).filter(|p| !p.is_empty())`.
pub open spec fn tokens(s: Seq<char>, c: char) -> Seq<Seq<char>> {
    non_empty(split(s, Sep::Char(c)))
}

/// Drops one `'\r'` that ends a line.
pub open spec fn strip_cr(l: Seq<char>) -> Seq<char> {
    if l.len() > 0 && l.last() == '\r' {
        l.drop_last()
    } else {
        l
    }
}

/// `s.lines()`: pieces ended by `'\n'` (or by the end of `s`), with a `'\r'`
/// before the `'\n'` removed and no empty piece after a final `'\n'`.
pub open spec fn lines(s: Seq<char>) -> Seq<Seq<char>> {
    let p = split(s, Sep::Char('\n'));
    let n = p.len();
    let k = if p.last().len() == 0 {
        n - 1
    } else {
        n as int
    };
    Seq::new(k as nat, |i: int| if i < n - 1 { strip_cr(p[i]) } else { p[i] })
}

/// The texts of the ranges `rs` of `v`.
pub open spec fn range_texts(v: Seq<char>, rs: Seq<(usize, usize)>) -> Seq<Seq<char>> {
    Seq::new(rs.len(), |i: int| v.subrange(rs[i].0 as int, rs[i].1 as int))
}

/// Every range of `rs` lies inside `lo..hi`.
pub open spec fn ranges_within(rs: Seq<(usize, usize)>, lo: int, hi: int) -> bool {
    forall|i: int| 0 <= i < rs.len() ==> lo <= #[trigger] rs[i].0 <= rs[i].1 <= hi
}

/// The ranges of the pieces of `v[lo..hi].split(sep)`.
pub fn split_ranges(v: &Vec<char>, lo: usize, hi: usize, sep: Sep) -> (r: Vec<(usize, usize)>)
    requires
        lo <= hi <= v@.len(),
    ensures
        ranges_within(r@, lo as int, hi as int),
        range_texts(v@, r@) == split(v@.subrange(lo as int, hi as int), sep),
{
    let mut done: Vec<(usize, usize)> = Vec::new();
    let mut st = lo;
    let mut i = lo;
    assert(v@.subrange(lo as int, lo as int) =~= Seq::<char>::empty());
    while i < hi
        invariant
            lo <= st <= i <= hi <= v@.len(),
            ranges_within(done@, lo as int, i as int),
            range_texts(v@, done@).push(v@.subrange(st as int, i as int)) == split(
                v@.subrange(lo as int, i as int),
                sep,
            ),
        decreases hi - i,
    {
        let ghost prev = split(v@.subrange(lo as int, i as int), sep);
        assert(v@.subrange(lo as int, i + 1).drop_last() =~= v@.subrange(lo as int, i as int));
        assert(v@.subrange(lo as int, i + 1).last() == v@[i as int]);
        if char_is_sep(sep, v[i]) {
            done.push((st, i));
            st = i + 1;
            assert(range_texts(v@, done@) =~= prev);
            assert(v@.subrange(st as int, i + 1) =~= Seq::<char>::empty());
            assert(range_texts(v@, done@).push(v@.subrange(st as int, i + 1)) =~= prev.push(
                Seq::empty(),
            ));
        } else {
            assert(v@.subrange(st as int, i + 1) =~= v@.subrange(st as int, i as int).push(
                v@[i as int],
            ));
            assert(range_texts(v@, done@).push(v@.subrange(st as int, i + 1)) =~= prev.update(
                prev.len() - 1,
                prev.last().push(v@[i as int]),
            ));
        }
        i = i + 1;
    }
    let ghost before = done@;
    done.push((st, hi));
    assert(range_texts(v@, done@) =~= range_texts(v@, before).push(
        v@.subrange(st as int, hi as int),
    ));
    done
}

/// Keeps the ranges of `rs` that are not empty.
pub fn non_empty_ranges(v: &Vec<char>, rs: &Vec<(usize, usize)>, lo: usize, hi: usize) -> (r: Vec<
    (usize, usize),
>)
    requires
        lo <= hi <= v@.len(),
        ranges_within(rs@, lo as int, hi as int),
    ensures
        ranges_within(r@, lo as int, hi as int),
        range_texts(v@, r@) == non_empty(range_texts(v@, rs@)),
{
    let mut out: Vec<(usize, usize)> = Vec::new();
    let mut k: usize = 0;
    while k < rs.len()
        invariant
            0 <= k <= rs@.len(),
            lo <= hi <= v@.len(),
            ranges_within(rs@, lo as int, hi as int),
            ranges_within(out@, lo as int, hi as int),
            range_texts(v@, out@) == non_empty(range_texts(v@, rs@).take(k as int)),
        decreases rs@.len() - k,
    {
        let (a, b) = rs[k];
        assert(range_texts(v@, rs@).take(k + 1).drop_last() =~= range_texts(v@, rs@).take(
            k as int,
        ));
        assert(range_texts(v@, rs@).take(k + 1).last() == v@.subrange(a as int, b as int));
        let ghost before = out@;
        if a < b {
            out.push((a, b));
            assert(range_texts(v@, out@) =~= range_texts(v@, before).push(
                v@.subrange(a as int, b as int),
            ));
        } else {
            assert(v@.subrange(a as int, b as int).len() == 0);
        }
        k = k + 1;
    }
    assert(range_texts(v@, rs@).take(rs@.len() as int) =~= range_texts(v@, rs@));
    out
}

/// The ranges of `v[lo..hi].split_whitespace()`.
pub fn word_ranges(v: &Vec<char>, lo: usize, hi: usize) -> (r: Vec<(usize, usize)>)
    requires
        lo <= hi <= v@.len(),
    ensures
        ranges_within(r@, lo as int, hi as int),
        range_texts(v@, r@) == words(v@.subrange(lo as int, hi as int)),
{
    let ps = split_ranges(v, lo, hi, Sep::Space);
    non_empty_ranges(v, &ps, lo, hi)
}

/// The ranges of `v[lo..hi].split(c).filter(|p| !p.is_empty())`.
pub fn token_ranges(v: &Vec<char>, lo: usize, hi: usize, c: char) -> (r: Vec<(usize, usize)>)
    requires
        lo <= hi <= v@.len(),
    ensures
        ranges_within(r@, lo as int, hi as int),
        range_texts(v@, r@) == tokens(v@.subrange(lo as int, hi as int), c),
{
    let ps = split_ranges(v, lo, hi, Sep::Char(c));
    non_empty_ranges(v, &ps, lo, hi)
}

/// The ranges of `v.lines()`.
pub fn line_ranges(v: &Vec<char>) -> (r: Vec<(usize, usize)>)
    ensures
        ranges_within(r@, 0, v@.len() as int),
        range_texts(v@, r@) == lines(v@),
{
    let ps = split_ranges(v, 0, v.len(), Sep::Char('\n'));
    assert(v@.subrange(0, v@.len() as int) =~= v@);
    let ghost p = split(v@, Sep::Char('\n'));
    proof {
        lemma_split_nonempty(v@, Sep::Char('\n'));
    }
    let n = ps.len();
    let (la, lb) = ps[n - 1];
    let k = if la == lb {
        n - 1
    } else {
        n
    };
    assert(range_texts(v@, ps@)[n - 1] == v@.subrange(la as int, lb as int));
    let mut out: Vec<(usize, usize)> = Vec::new();
    let mut i: usize = 0;
    while i < k
        invariant
            k <= n == ps@.len() == p.len(),
            range_texts(v@, ps@) == p,
            ranges_within(ps@, 0, v@.len() as int),
            0 <= i <= k,
            out@.len() == i,
            ranges_within(out@, 0, v@.len() as int),
            forall|j: int|
                0 <= j < i ==> v@.subrange(#[trigger] out@[j].0 as int, out@[j].1 as int) == (if j
                    < n - 1 {
                    strip_cr(p[j])
                } else {
                    p[j]
                }),
        decreases k - i,
    {
        let (a, b) = ps[i];
        assert(range_texts(v@, ps@)[i as int] == v@.subrange(a as int, b as int));
        if i < n - 1 && a < b && v[b - 1] == '\r' {
            assert(v@.subrange(a as int, b - 1) =~= v@.subrange(a as int, b as int).drop_last());
            out.push((a, b - 1));
        } else {
            out.push((a, b));
        }
        i = i + 1;
    }
    assert(range_texts(v@, out@) =~= lines(v@));
    out
}

// ---------------------------------------------------------------------------
// Building strings
// ---------------------------------------------------------------------------

/// Calls std's `String::push`. Trusted, not proved: the characters of the
/// string afterwards are its old characters followed by `c`, as std
/// documents for `push`.
#[verifier::external_body]
fn push_char(s: &mut String, c: char)
    ensures
        final(s)@ == old(s)@.push(c),
{
    s.push(c);
}

/// A new string holding the characters `v[lo..hi]`.
pub fn string_of(v: &Vec<char>, lo: usize, hi: usize) -> (r: String)
    requires
        lo <= hi <= v@.len(),
    ensures
        r@ == v@.subrange(lo as int, hi as int),
{
    let mut s = String::new();
    let mut i = lo;
    while i < hi
        invariant
            lo <= i <= hi <= v@.len(),
            s@ == v@.subrange(lo as int, i as int),
        decreases hi - i,
    {
        push_char(&mut s, v[i]);
        assert(v@.subrange(lo as int, i + 1) =~= v@.subrange(lo as int, i as int).push(
            v@[i as int],
        ));
        i = i + 1;
    }
    s
}

/// Appends the characters `v[lo..hi]` to `s`.
pub fn push_range(s: &mut String, v: &Vec<char>, lo: usize, hi: usize)
    requires
        lo <= hi <= v@.len(),
    ensures
        final(s)@ == old(s)@ + v@.subrange(lo as int, hi as int),
{
    let mut i = lo;
    while i < hi
        invariant
            lo <= i <= hi <= v@.len(),
            s@ == old(s)@ + v@.subrange(lo as int, i as int),
        decreases hi - i,
    {
        push_char(s, v[i]);
        assert(v@.subrange(lo as int, i + 1) =~= v@.subrange(lo as int, i as int).push(
            v@[i as int],
        ));
        i = i + 1;
    }
}


// ---------------------------------------------------------------------------
// Whole strings
// ---------------------------------------------------------------------------

/// `s.contains(p)`.
pub fn str_contains(s: &str, p: &str) -> (r: bool)
    ensures
        r == contains(s@, p@),
{
    let v = chars_of(s);
    let w = chars_of(p);
    assert(v@.subrange(0, v@.len() as int) =~= v@);
    range_contains(&v, 0, v.len(), &w)
}

/// `s.starts_with(p)`.
pub fn str_starts_with(s: &str, p: &str) -> (r: bool)
    ensures
        r == starts_with(s@, p@),
{
    let v = chars_of(s);
    let w = chars_of(p);
    assert(v@.subrange(0, v@.len() as int) =~= v@);
    range_starts_with(&v, 0, v.len(), &w)
}

/// `s.ends_with(p)`.
pub fn str_ends_with(s: &str, p: &str) -> (r: bool)
    ensures
        r == ends_with(s@, p@),
{
    let v = chars_of(s);
    let w = chars_of(p);
    assert(v@.subrange(0, v@.len() as int) =~= v@);
    range_ends_with(&v, 0, v.len(), &w)
}

/// `s == p`.
pub fn str_equals(s: &str, p: &str) -> (r: bool)
    ensures
        r == (s@ == p@),
{
    let v = chars_of(s);
    let w = chars_of(p);
    if v.len() != w.len() {
        return false;
    }
    let r = matches_at(&v, 0, &w);
    assert(v@.subrange(0, w@.len() as int) =~= v@);
    r
}

/// Every character of `s`, in order.
pub fn chars_of(s: &str) -> (r: Vec<char>)
    ensures
        r@ == s@,
{
    let mut out: Vec<char> = Vec::new();
    for c in it: s.chars()
        invariant
            out@ == it.seq().take(it.index() as int),
    {
        out.push(c);
    }
    out
}

} // verus!
