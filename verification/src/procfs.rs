//! What the monitor reads out of the text of `/proc`: per-process samples
//! (`/proc/[pid]/stat`, `cmdline`, `io`), child lists and the system-wide
//! CPU counters of `/proc/stat`.
use vstd::prelude::*;
use crate::text;
use crate::number;

verus! {

/// Per-process sample from `/proc/[pid]/stat` and friends.
pub struct Sample {
    pub comm: String,
    pub cmdline_args: Vec<String>,
    pub ppid: u32,
    pub cpu_jiffies: u64,
    pub cwd: Option<String>,
    pub io_bytes: Option<u64>,
}

// ---------------------------------------------------------------------------
// /proc/[pid]/io
// ---------------------------------------------------------------------------

/// The value of the last of `ls` that starts with `key`: what follows the key,
/// trimmed and read as a `u64`, or 0 where it does not read; 0 without such a line.
pub open spec fn field_value(ls: Seq<Seq<char>>, key: Seq<char>) -> u64
    decreases ls.len(),
{
    if ls.len() == 0 {
        0
    } else if text::starts_with(ls.last(), key) {
        match number::parse_u64(text::trim(ls.last().subrange(key.len() as int, ls.last().len() as int))) {
            Some(v) => v,
            None => 0,
        }
    } else {
        field_value(ls.drop_last(), key)
    }
}

/// `a.saturating_add(b)` for `u64`.
pub open spec fn saturating_sum(a: u64, b: u64) -> u64 {
    if a + b > u64::MAX {
        u64::MAX
    } else {
        (a + b) as u64
    }
}

/// Bytes read plus bytes written, as `/proc/[pid]/io` reports them.
pub open spec fn proc_io_total(s: Seq<char>) -> u64 {
    saturating_sum(
        field_value(text::lines(s), "read_bytes:"@),
        field_value(text::lines(s), "write_bytes:"@),
    )
}

/// The value that the line `v[a..b]` gives a field, given that it starts with `key`.
fn line_field(v: &Vec<char>, a: usize, b: usize, key: &Vec<char>) -> (r: u64)
    requires
        a <= b <= v@.len(),
        text::starts_with(v@.subrange(a as int, b as int), key@),
    ensures
        r == (match number::parse_u64(
            text::trim(v@.subrange(a as int, b as int).subrange(key@.len() as int, b - a)),
        ) {
            Some(x) => x,
            None => 0,
        }),
{
    let start = a + key.len();
    assert(v@.subrange(a as int, b as int).subrange(key@.len() as int, b - a) =~= v@.subrange(
        start as int,
        b as int,
    ));
    let (x, y) = text::trim_range(v, start, b);
    match number::parse_u64_range(v, x, y) {
        Some(n) => n,
        None => 0,
    }
}

/// Parse `/proc/[pid]/io` and return `read_bytes + write_bytes`.
pub fn parse_proc_io(s: &str) -> (r: u64)
    ensures
        r == proc_io_total(s@),
{
    let v = text::chars_of(s);
    let rkey = text::chars_of("read_bytes:");
    let wkey = text::chars_of("write_bytes:");
    let ls = text::line_ranges(&v);
    let ghost all = text::lines(v@);
    let mut rb: u64 = 0;
    let mut wb: u64 = 0;
    let mut k: usize = 0;
    while k < ls.len()
        invariant
            0 <= k <= ls@.len(),
            text::ranges_within(ls@, 0, v@.len() as int),
            text::range_texts(v@, ls@) == all,
            rkey@ == "read_bytes:"@,
            wkey@ == "write_bytes:"@,
            rb == field_value(all.take(k as int), rkey@),
            wb == field_value(all.take(k as int), wkey@),
        decreases ls@.len() - k,
    {
        let (a, b) = ls[k];
        assert(all[k as int] == v@.subrange(a as int, b as int));
        assert(all.take(k + 1).drop_last() =~= all.take(k as int));
        assert(all.take(k + 1).last() == all[k as int]);
        if text::range_starts_with(&v, a, b, &rkey) {
            rb = line_field(&v, a, b, &rkey);
            proof {
                reveal_strlit("read_bytes:");
                reveal_strlit("write_bytes:");
                if text::starts_with(all[k as int], wkey@) {
                    assert(all[k as int].subrange(0, 1) == rkey@.subrange(0, 1));
                    assert(all[k as int].subrange(0, 1) == wkey@.subrange(0, 1));
                    assert(rkey@[0] != wkey@[0]);
                    assert(false);
                }
            }
        } else if text::range_starts_with(&v, a, b, &wkey) {
            wb = line_field(&v, a, b, &wkey);
        }
        k = k + 1;
    }
    assert(all.take(ls@.len() as int) =~= all);
    rb.saturating_add(wb)
}

// ---------------------------------------------------------------------------
// /proc/[pid]/stat
// ---------------------------------------------------------------------------

/// The position of the first `c` in `s` (`str::find`).
pub open spec fn first_index(s: Seq<char>, c: char) -> Option<int>
    decreases s.len(),
{
    if s.len() == 0 {
        None
    } else if s[0] == c {
        Some(0)
    } else {
        match first_index(s.drop_first(), c) {
            Some(i) => Some(i + 1),
            None => None,
        }
    }
}

/// The position of the last `c` in `s` (`str::rfind`).
pub open spec fn last_index(s: Seq<char>, c: char) -> Option<int>
    decreases s.len(),
{
    if s.len() == 0 {
        None
    } else if s.last() == c {
        Some(s.len() - 1)
    } else {
        last_index(s.drop_last(), c)
    }
}

/// The text of a stat line can be cut where `read_proc_stat` cuts it: the
/// first `'('` comes before the last `')'`, and an ASCII character follows
/// that `')'`. (Otherwise slicing the line panics.)
pub open spec fn stat_sliceable(s: Seq<char>) -> bool {
    match (first_index(s, '('), last_index(s, ')')) {
        (Some(l), Some(r)) => l < r && r + 1 < s.len() && s[r + 1] < '\u{80}',
        _ => true,
    }
}

/// What a stat line holds: the command name between the parentheses, and
/// the parent pid, user time and system time among the fields after them.
pub open spec fn stat_fields(s: Seq<char>) -> Option<(Seq<char>, u32, u64, u64)> {
    match (first_index(s, '('), last_index(s, ')')) {
        (Some(l), Some(r)) => {
            let rest = text::words(s.subrange(r + 2, s.len() as int));
            if rest.len() > 12 {
                match (
                    number::parse_u32(rest[1]),
                    number::parse_u64(rest[11]),
                    number::parse_u64(rest[12]),
                ) {
                    (Some(ppid), Some(ut), Some(st)) => Some((s.subrange(l + 1, r), ppid, ut, st)),
                    _ => None,
                }
            } else {
                None
            }
        },
        _ => None,
    }
}

/// The words after the last `')'` of a stat line (none where it has no `')'`).
pub open spec fn stat_words(s: Seq<char>) -> Seq<Seq<char>> {
    match last_index(s, ')') {
        Some(r) => text::words(s.subrange(r + 2, s.len() as int)),
        None => Seq::empty(),
    }
}

/// The command name of a stat line: what lies between its first `'('` and
/// its last `')'`, where it has both.
pub open spec fn stat_comm(s: Seq<char>) -> Option<Seq<char>> {
    match (first_index(s, '('), last_index(s, ')')) {
        (Some(l), Some(r)) => Some(s.subrange(l + 1, r)),
        _ => None,
    }
}

/// Law: a stat line gives its fields exactly when it has a command name and
/// more than twelve words after it, of which the second reads as a `u32`
/// and the twelfth and thirteenth as `u64`s; then the parent pid is the
/// second word, the user time the twelfth and the system time the
/// thirteenth. No other word plays a part.
pub proof fn lemma_stat_fields_words(s: Seq<char>)
    ensures
        stat_fields(s) is Some <==> stat_comm(s) is Some && stat_words(s).len() > 12
            && number::parse_u32(stat_words(s)[1]) is Some
            && number::parse_u64(stat_words(s)[11]) is Some
            && number::parse_u64(stat_words(s)[12]) is Some,
        stat_fields(s) matches Some((comm, ppid, ut, st)) ==> {
            &&& stat_comm(s) == Some(comm)
            &&& number::parse_u32(stat_words(s)[1]) == Some(ppid)
            &&& number::parse_u64(stat_words(s)[11]) == Some(ut)
            &&& number::parse_u64(stat_words(s)[12]) == Some(st)
        },
{
}

/// Law: two stat lines with the same command name that agree on the second,
/// twelfth and thirteenth words after it (and have more than twelve) give
/// the same fields, whatever their other words hold.
pub proof fn lemma_stat_fields_ignore_other_words(s: Seq<char>, t: Seq<char>)
    requires
        stat_comm(s) is Some,
        stat_comm(s) == stat_comm(t),
        stat_words(s).len() > 12,
        stat_words(t).len() > 12,
        stat_words(s)[1] == stat_words(t)[1],
        stat_words(s)[11] == stat_words(t)[11],
        stat_words(s)[12] == stat_words(t)[12],
    ensures
        stat_fields(s) == stat_fields(t),
{
    lemma_stat_fields_words(s);
    lemma_stat_fields_words(t);
}

/// The user and system times of a stat line add up within a `u64`.
pub open spec fn stat_time_fits(s: Seq<char>) -> bool {
    match stat_fields(s) {
        Some((_, _, ut, st)) => ut + st <= u64::MAX,
        None => true,
    }
}

fn find_first(v: &Vec<char>, c: char) -> (r: Option<usize>)
    ensures
        match first_index(v@, c) {
            Some(i) => r matches Some(k) && k as int == i && 0 <= i < v@.len(),
            None => r is None,
        },
{
    let mut i: usize = 0;
    assert(v@.subrange(0, v@.len() as int) =~= v@);
    while i < v.len()
        invariant
            0 <= i <= v@.len(),
            first_index(v@, c) == (match first_index(v@.subrange(i as int, v@.len() as int), c) {
                Some(j) => Some(j + i),
                None => None,
            }),
        decreases v@.len() - i,
    {
        assert(v@.subrange(i as int, v@.len() as int).drop_first() =~= v@.subrange(
            i + 1,
            v@.len() as int,
        ));
        if v[i] == c {
            return Some(i);
        }
        i = i + 1;
    }
    None
}

fn find_last(v: &Vec<char>, c: char) -> (r: Option<usize>)
    ensures
        match last_index(v@, c) {
            Some(i) => r matches Some(k) && k as int == i && 0 <= i < v@.len(),
            None => r is None,
        },
{
    let mut i: usize = v.len();
    assert(v@.subrange(0, v@.len() as int) =~= v@);
    while i > 0
        invariant
            0 <= i <= v@.len(),
            last_index(v@, c) == last_index(v@.subrange(0, i as int), c),
        decreases i,
    {
        assert(v@.subrange(0, i as int).drop_last() =~= v@.subrange(0, i - 1));
        if v[i - 1] == c {
            return Some(i - 1);
        }
        i = i - 1;
    }
    None
}

/// Whether `s` can be cut as a stat line; see [`stat_sliceable`].
pub fn stat_is_sliceable(s: &str) -> (r: bool)
    ensures
        r == stat_sliceable(s@),
{
    let v = text::chars_of(s);
    let fl = find_first(&v, '(');
    let fr = find_last(&v, ')');
    match fl {
        Some(l) => match fr {
            Some(r) => {
                assert(first_index(v@, '(') == Some(l as int));
                assert(last_index(v@, ')') == Some(r as int));
                if l < r && r < v.len() - 1 {
                    let c = v[r + 1];
                    assert(c == s@[r + 1]);
                    c < '\u{80}'
                } else {
                    false
                }
            },
            None => true,
        },
        None => {
            assert(first_index(v@, '(') is None);
            true
        },
    }
}

proof fn lemma_first_index_bounds(s: Seq<char>, c: char)
    ensures
        first_index(s, c) matches Some(i) ==> 0 <= i < s.len() && s[i] == c,
    decreases s.len(),
{
    if s.len() > 0 && s[0] != c {
        lemma_first_index_bounds(s.drop_first(), c);
    }
}

/// Whether the user and system times of a stat line add up within a `u64`;
/// see [`stat_time_fits`].
pub fn stat_times_fit(s: &str) -> (r: bool)
    requires
        stat_sliceable(s@),
    ensures
        r == stat_time_fits(s@),
{
    let v = text::chars_of(s);
    proof {
        lemma_first_index_bounds(v@, '(');
    }
    match find_first(&v, '(') {
        Some(_) => {},
        None => return true,
    }
    let r = match find_last(&v, ')') {
        Some(r) => r,
        None => return true,
    };
    let ws = text::word_ranges(&v, r + 2, v.len());
    let ghost rest = text::words(v@.subrange(r + 2, v@.len() as int));
    if ws.len() <= 12 {
        return true;
    }
    let (a1, b1) = ws[1];
    let (a11, b11) = ws[11];
    let (a12, b12) = ws[12];
    assert(rest[1] == v@.subrange(a1 as int, b1 as int));
    assert(rest[11] == v@.subrange(a11 as int, b11 as int));
    assert(rest[12] == v@.subrange(a12 as int, b12 as int));
    match number::parse_u32_range(&v, a1, b1) {
        Some(_) => {},
        None => return true,
    }
    let ut = match number::parse_u64_range(&v, a11, b11) {
        Some(x) => x,
        None => return true,
    };
    let st = match number::parse_u64_range(&v, a12, b12) {
        Some(x) => x,
        None => return true,
    };
    ut <= u64::MAX - st
}

/// The command name, parent pid and CPU time of a stat line.
pub fn parse_stat(s: &str) -> (r: Option<(String, u32, u64)>)
    requires
        stat_sliceable(s@),
        stat_time_fits(s@),
    ensures
        match stat_fields(s@) {
            Some((comm, ppid, ut, st)) => r matches Some((c, p, j)) && c@ == comm && p == ppid && j
                == ut + st,
            None => r is None,
        },
        r matches Some((c, p, j)) ==> {
            &&& Some(c@) == stat_comm(s@)
            &&& number::parse_u32(stat_words(s@)[1]) == Some(p)
            &&& j == number::parse_u64(stat_words(s@)[11])->0 + number::parse_u64(stat_words(s@)[12])->0
        },
{
    proof {
        lemma_stat_fields_words(s@);
    }
    let v = text::chars_of(s);
    proof {
        lemma_first_index_bounds(v@, '(');
    }
    let l = match find_first(&v, '(') {
        Some(l) => l,
        None => return None,
    };
    let r = match find_last(&v, ')') {
        Some(r) => r,
        None => return None,
    };
    let ws = text::word_ranges(&v, r + 2, v.len());
    let ghost rest = text::words(v@.subrange(r + 2, v@.len() as int));
    if ws.len() <= 12 {
        return None;
    }
    let (a1, b1) = ws[1];
    let (a11, b11) = ws[11];
    let (a12, b12) = ws[12];
    assert(rest[1] == v@.subrange(a1 as int, b1 as int));
    assert(rest[11] == v@.subrange(a11 as int, b11 as int));
    assert(rest[12] == v@.subrange(a12 as int, b12 as int));
    let ppid = match number::parse_u32_range(&v, a1, b1) {
        Some(p) => p,
        None => return None,
    };
    let ut = match number::parse_u64_range(&v, a11, b11) {
        Some(x) => x,
        None => return None,
    };
    let st = match number::parse_u64_range(&v, a12, b12) {
        Some(x) => x,
        None => return None,
    };
    let comm = text::string_of(&v, l + 1, r);
    Some((comm, ppid, ut + st))
}

// ---------------------------------------------------------------------------
// /proc/[pid]/cmdline, /proc/[pid]/task/[pid]/children
// ---------------------------------------------------------------------------

/// The arguments of a raw command line: its NUL-separated pieces that are not empty.
pub fn split_cmdline(raw: &str) -> (r: Vec<String>)
    ensures
        r.deep_view() == text::tokens(raw@, '\0'),
{
    let v = text::chars_of(raw);
    assert(v@.subrange(0, v@.len() as int) =~= v@);
    let ts = text::token_ranges(&v, 0, v.len(), '\0');
    let mut out: Vec<String> = Vec::new();
    let mut k: usize = 0;
    while k < ts.len()
        invariant
            0 <= k <= ts@.len(),
            text::ranges_within(ts@, 0, v@.len() as int),
            out.deep_view() == text::range_texts(v@, ts@).take(k as int),
        decreases ts@.len() - k,
    {
        let (a, b) = ts[k];
        let piece = text::string_of(&v, a, b);
        let ghost before = out.deep_view();
        out.push(piece);
        assert(out.deep_view() =~= before.push(v@.subrange(a as int, b as int)));
        assert(text::range_texts(v@, ts@).take(k + 1) =~= text::range_texts(v@, ts@).take(
            k as int,
        ).push(v@.subrange(a as int, b as int)));
        k = k + 1;
    }
    assert(text::range_texts(v@, ts@).take(ts@.len() as int) =~= text::range_texts(v@, ts@));
    out
}

/// The pieces of `ws` that read as a `u32`, read (`filter_map(|s| s.parse().ok())`).
pub open spec fn parsed_u32s(ws: Seq<Seq<char>>) -> Seq<u32>
    decreases ws.len(),
{
    if ws.len() == 0 {
        Seq::empty()
    } else {
        match number::parse_u32(ws.last()) {
            Some(x) => parsed_u32s(ws.drop_last()).push(x),
            None => parsed_u32s(ws.drop_last()),
        }
    }
}

/// The pieces of `ws` that read as a `u64`, read.
pub open spec fn parsed_u64s(ws: Seq<Seq<char>>) -> Seq<u64>
    decreases ws.len(),
{
    if ws.len() == 0 {
        Seq::empty()
    } else {
        match number::parse_u64(ws.last()) {
            Some(x) => parsed_u64s(ws.drop_last()).push(x),
            None => parsed_u64s(ws.drop_last()),
        }
    }
}

/// The pids listed in the text of a `children` file.
pub fn parse_pid_list(s: &str) -> (r: Vec<u32>)
    ensures
        r@ == parsed_u32s(text::words(s@)),
{
    let v = text::chars_of(s);
    assert(v@.subrange(0, v@.len() as int) =~= v@);
    let ws = text::word_ranges(&v, 0, v.len());
    let ghost all = text::range_texts(v@, ws@);
    let mut out: Vec<u32> = Vec::new();
    let mut k: usize = 0;
    while k < ws.len()
        invariant
            0 <= k <= ws@.len(),
            text::ranges_within(ws@, 0, v@.len() as int),
            all == text::range_texts(v@, ws@),
            out@ == parsed_u32s(all.take(k as int)),
        decreases ws@.len() - k,
    {
        let (a, b) = ws[k];
        assert(all.take(k + 1).drop_last() =~= all.take(k as int));
        assert(all.take(k + 1).last() == v@.subrange(a as int, b as int));
        match number::parse_u32_range(&v, a, b) {
            Some(x) => out.push(x),
            None => {},
        }
        k = k + 1;
    }
    assert(all.take(ws@.len() as int) =~= all);
    out
}

// ---------------------------------------------------------------------------
// /proc/stat
// ---------------------------------------------------------------------------

/// `s.lines().next().unwrap_or("")`.
pub open spec fn first_line(s: Seq<char>) -> Seq<char> {
    if text::lines(s).len() > 0 {
        text::lines(s)[0]
    } else {
        Seq::empty()
    }
}

/// The sum of a sequence of counters.
pub open spec fn sum_u64s(xs: Seq<u64>) -> nat
    decreases xs.len(),
{
    if xs.len() == 0 {
        0
    } else {
        sum_u64s(xs.drop_last()) + xs.last() as nat
    }
}

/// The counters of the aggregate `cpu` line: the fields after the first one
/// on the first line that read as a `u64`.
pub open spec fn cpu_counters(s: Seq<char>) -> Seq<u64> {
    let ws = text::words(first_line(s));
    if ws.len() == 0 {
        Seq::empty()
    } else {
        parsed_u64s(ws.drop_first())
    }
}

/// Total system CPU jiffies: the sum of the aggregate counters.
pub open spec fn total_jiffies(s: Seq<char>) -> nat {
    sum_u64s(cpu_counters(s))
}

proof fn lemma_sum_prefix_le(xs: Seq<u64>, i: int)
    requires
        0 <= i <= xs.len(),
    ensures
        sum_u64s(xs.take(i)) <= sum_u64s(xs),
    decreases xs.len(),
{
    if i < xs.len() {
        lemma_sum_prefix_le(xs.drop_last(), i);
        assert(xs.drop_last().take(i) =~= xs.take(i));
    } else {
        assert(xs.take(i) =~= xs);
    }
}

/// Total system CPU jiffies from the text of `/proc/stat`, where the sum
/// fits a `u64`.
pub fn cpu_total_checked(s: &str) -> (r: Option<u64>)
    ensures
        r == if total_jiffies(s@) <= u64::MAX {
            Some(total_jiffies(s@) as u64)
        } else {
            None
        },
{
    let v = text::chars_of(s);
    let ls = text::line_ranges(&v);
    let (a, b) = if ls.len() > 0 {
        ls[0]
    } else {
        (0, 0)
    };
    assert(first_line(v@) == v@.subrange(a as int, b as int));
    let ws = text::word_ranges(&v, a, b);
    let ghost all = text::range_texts(v@, ws@);
    let ghost counters = cpu_counters(v@);
    let mut total: u64 = 0;
    if ws.len() == 0 {
        return Some(0);
    }
    let mut k: usize = 1;
    while k < ws.len()
        invariant
            1 <= k <= ws@.len(),
            text::ranges_within(ws@, 0, v@.len() as int),
            all == text::range_texts(v@, ws@),
            counters == parsed_u64s(all.drop_first()),
            sum_u64s(counters) == total_jiffies(s@),
            counters.len() >= parsed_u64s(all.drop_first().take(k - 1)).len(),
            total == sum_u64s(parsed_u64s(all.drop_first().take(k - 1))),
        decreases ws@.len() - k,
    {
        let (a, b) = ws[k];
        let ghost d = all.drop_first();
        assert(d.take(k as int).drop_last() =~= d.take(k - 1));
        assert(d.take(k as int).last() == v@.subrange(a as int, b as int));
        proof {
            lemma_parsed_prefix(d, k as int);
            lemma_sum_prefix_le(counters, parsed_u64s(d.take(k as int)).len() as int);
        }
        match number::parse_u64_range(&v, a, b) {
            Some(x) => {
                assert(parsed_u64s(d.take(k as int)) == parsed_u64s(d.take(k - 1)).push(x));
                assert(parsed_u64s(d.take(k - 1)).push(x).drop_last() =~= parsed_u64s(d.take(k - 1)));
                assert(sum_u64s(parsed_u64s(d.take(k as int))) == total + x);
                assert(counters.take(parsed_u64s(d.take(k as int)).len() as int) == parsed_u64s(d.take(k as int)));
                if x > u64::MAX - total {
                    return None;
                }
                total = total + x;
            },
            None => {
                assert(parsed_u64s(d.take(k as int)) == parsed_u64s(d.take(k - 1)));
            },
        }
        k = k + 1;
    }
    assert(all.drop_first().take(ws@.len() - 1) =~= all.drop_first());
    Some(total)
}

/// Total system CPU jiffies from the text of `/proc/stat`.
pub fn cpu_total_jiffies(s: &str) -> (r: u64)
    requires
        total_jiffies(s@) <= u64::MAX,
    ensures
        r == total_jiffies(s@),
{
    match cpu_total_checked(s) {
        Some(t) => t,
        None => {
            assert(false);
            0
        },
    }
}

/// Reading a prefix of the pieces gives a prefix of what the whole reads.
proof fn lemma_parsed_prefix(ws: Seq<Seq<char>>, i: int)
    requires
        0 <= i <= ws.len(),
    ensures
        parsed_u64s(ws.take(i)).len() <= parsed_u64s(ws).len(),
        parsed_u64s(ws).take(parsed_u64s(ws.take(i)).len() as int) == parsed_u64s(ws.take(i)),
    decreases ws.len(),
{
    if i < ws.len() {
        lemma_parsed_prefix(ws.drop_last(), i);
        assert(ws.drop_last().take(i) =~= ws.take(i));
        let p = parsed_u64s(ws.drop_last());
        let q = parsed_u64s(ws.take(i));
        assert(parsed_u64s(ws).take(q.len() as int) =~= p.take(q.len() as int));
    } else {
        assert(ws.take(i) =~= ws);
        assert(parsed_u64s(ws).take(parsed_u64s(ws).len() as int) =~= parsed_u64s(ws));
    }
}

/// A line of `/proc/stat` that describes one logical CPU (`cpuN ...`).
pub open spec fn is_cpu_line(l: Seq<char>) -> bool {
    text::starts_with(l, "cpu"@) && !text::starts_with(l, "cpu "@)
}

/// How many of `ls` describe one logical CPU.
pub open spec fn count_cpu_lines(ls: Seq<Seq<char>>) -> nat
    decreases ls.len(),
{
    if ls.len() == 0 {
        0
    } else if is_cpu_line(ls.last()) {
        count_cpu_lines(ls.drop_last()) + 1
    } else {
        count_cpu_lines(ls.drop_last())
    }
}

proof fn lemma_count_le(ls: Seq<Seq<char>>)
    ensures
        count_cpu_lines(ls) <= ls.len(),
    decreases ls.len(),
{
    if ls.len() > 0 {
        lemma_count_le(ls.drop_last());
    }
}

/// The number of logical CPUs that the text of `/proc/stat` lists, at least 1.
pub open spec fn cpu_count(s: Seq<char>) -> nat {
    let n = count_cpu_lines(text::lines(s));
    if n < 1 {
        1
    } else {
        n
    }
}

/// Number of logical CPUs, from the text of `/proc/stat`.
pub fn count_cpus(s: &str) -> (r: u64)
    ensures
        r == cpu_count(s@),
{
    let v = text::chars_of(s);
    let cpu = text::chars_of("cpu");
    let cpu_sp = text::chars_of("cpu ");
    let ls = text::line_ranges(&v);
    let ghost all = text::lines(v@);
    let mut n: u64 = 0;
    let mut k: usize = 0;
    while k < ls.len()
        invariant
            0 <= k <= ls@.len(),
            text::ranges_within(ls@, 0, v@.len() as int),
            text::range_texts(v@, ls@) == all,
            cpu@ == "cpu"@,
            cpu_sp@ == "cpu "@,
            n == count_cpu_lines(all.take(k as int)),
        decreases ls@.len() - k,
    {
        let (a, b) = ls[k];
        assert(all[k as int] == v@.subrange(a as int, b as int));
        assert(all.take(k + 1).drop_last() =~= all.take(k as int));
        assert(all.take(k + 1).last() == all[k as int]);
        proof {
            lemma_count_le(all.take(k as int));
        }
        if text::range_starts_with(&v, a, b, &cpu) && !text::range_starts_with(&v, a, b, &cpu_sp) {
            n = n + 1;
        }
        k = k + 1;
    }
    assert(all.take(ls@.len() as int) =~= all);
    if n < 1 {
        1
    } else {
        n
    }
}


// ---------------------------------------------------------------------------
// A whole sample
// ---------------------------------------------------------------------------

/// The `io_bytes` of a sample, given the text of `/proc/[pid]/io` if it was read.
pub open spec fn io_bytes_of(io_text: Option<Seq<char>>) -> Option<u64> {
    match io_text {
        Some(t) => Some(proc_io_total(t)),
        None => None,
    }
}

/// The sample that `read_proc_stat` builds from what it read for one process:
/// the text of its `stat` file, of its `cmdline` file (empty if unreadable),
/// its working directory and the text of its `io` file, where they could be read.
pub fn sample_from(stat: &str, cmdline_raw: &str, cwd: Option<String>, io_text: Option<&str>) -> (r:
    Option<Sample>)
    requires
        stat_sliceable(stat@),
        stat_time_fits(stat@),
    ensures
        match stat_fields(stat@) {
            Some((comm, ppid, ut, st)) => r matches Some(smp) && smp.comm@ == comm && smp.ppid
                == ppid && smp.cpu_jiffies == ut + st && smp.cmdline_args.deep_view()
                == text::tokens(cmdline_raw@, '\0') && smp.cwd == cwd && smp.io_bytes
                == io_bytes_of(
                match io_text {
                    Some(t) => Some(t@),
                    None => None,
                },
            ),
            None => r is None,
        },
{
    let (comm, ppid, cpu_jiffies) = match parse_stat(stat) {
        Some(f) => f,
        None => return None,
    };
    let cmdline_args = split_cmdline(cmdline_raw);
    let io_bytes = match io_text {
        Some(t) => Some(parse_proc_io(t)),
        None => None,
    };
    Some(Sample { comm, cmdline_args, ppid, cpu_jiffies, cwd, io_bytes })
}

} // verus!
