//! The command line of the monitor.
use vstd::prelude::*;
use crate::text;
use crate::number;
use crate::label;

verus! {

/// What the command line asks for.
pub struct Options {
    /// `-h` / `--help`: print the help and exit.
    pub help: bool,
    /// `-i` / `--interval <MS>`: sampling interval in milliseconds.
    pub interval_ms: u64,
    /// `-n` / `--rows <N>`: total rows budget per frame.
    pub max_rows: usize,
    /// `--no-power`: force wattage off.
    pub no_power: bool,
}

/// Some argument is `a` or `b`.
pub open spec fn has_flag(args: Seq<Seq<char>>, a: Seq<char>, b: Seq<char>) -> bool {
    exists|i: int| 0 <= i < args.len() && (#[trigger] args[i] == a || args[i] == b)
}

/// `i` is the first argument that is `a` or `b`.
pub open spec fn first_flag_at(args: Seq<Seq<char>>, a: Seq<char>, b: Seq<char>, i: int) -> bool {
    &&& 0 <= i < args.len()
    &&& (args[i] == a || args[i] == b)
    &&& forall|j: int| 0 <= j < i ==> #[trigger] args[j] != a && args[j] != b
}

/// The argument after the first `a` or `b`, where there is one.
pub open spec fn flag_value(args: Seq<Seq<char>>, a: Seq<char>, b: Seq<char>) -> Option<Seq<char>> {
    if exists|i: int| first_flag_at(args, a, b, i) {
        let i = choose|i: int| first_flag_at(args, a, b, i);
        if i + 1 < args.len() {
            Some(args[i + 1])
        } else {
            None
        }
    } else {
        None
    }
}

/// The interval the command line asks for: the value after the first
/// `-i`/`--interval` where it reads as a number, 1500 otherwise.
pub open spec fn interval_of(args: Seq<Seq<char>>) -> u64 {
    match flag_value(args, "-i"@, "--interval"@) {
        Some(v) => match number::parse_u64(v) {
            Some(n) => n,
            None => 1500,
        },
        None => 1500,
    }
}

/// The rows budget the command line asks for: the value after the first
/// `-n`/`--rows` where it reads as a number, 50 otherwise.
pub open spec fn rows_of(args: Seq<Seq<char>>) -> usize {
    match flag_value(args, "-n"@, "--rows"@) {
        Some(v) => match number::parse_usize(v) {
            Some(n) => n,
            None => 50,
        },
        None => 50,
    }
}

fn find_flag<'a>(args: &'a Vec<String>, a: &str, b: &str) -> (r: Option<&'a str>)
    ensures
        match flag_value(args.deep_view(), a@, b@) {
            Some(v) => r matches Some(x) && x@ == v,
            None => r is None,
        },
{
    let ghost av = args.deep_view();
    let mut i: usize = 0;
    while i < args.len()
        invariant
            0 <= i <= av.len(),
            av == args.deep_view(),
            forall|j: int| 0 <= j < i ==> #[trigger] av[j] != a@ && av[j] != b@,
        decreases av.len() - i,
    {
        let s: &str = args[i].as_str();
        assert(s@ == av[i as int]);
        if text::str_equals(s, a) || text::str_equals(s, b) {
            assert(first_flag_at(av, a@, b@, i as int));
            assert forall|k: int| first_flag_at(av, a@, b@, k) implies k == i by {
                if k < i {
                    assert(av[k] != a@ && av[k] != b@);
                } else if k > i {
                    assert(av[i as int] == a@ || av[i as int] == b@);
                }
            }
            if i + 1 < args.len() {
                let v: &str = args[i + 1].as_str();
                return Some(v);
            } else {
                return None;
            }
        }
        i = i + 1;
    }
    None
}

fn any_flag(args: &Vec<String>, a: &str, b: &str) -> (r: bool)
    ensures
        r == has_flag(args.deep_view(), a@, b@),
{
    let ghost av = args.deep_view();
    let mut i: usize = 0;
    while i < args.len()
        invariant
            0 <= i <= av.len(),
            av == args.deep_view(),
            forall|j: int| 0 <= j < i ==> #[trigger] av[j] != a@ && av[j] != b@,
        decreases av.len() - i,
    {
        let s: &str = args[i].as_str();
        assert(s@ == av[i as int]);
        if text::str_equals(s, a) || text::str_equals(s, b) {
            return true;
        }
        i = i + 1;
    }
    false
}

/// At most one position holds the first `a` or `b`.
proof fn lemma_first_flag_unique(args: Seq<Seq<char>>, a: Seq<char>, b: Seq<char>, i: int, j: int)
    requires
        first_flag_at(args, a, b, i),
        first_flag_at(args, a, b, j),
    ensures
        i == j,
{
    if i < j {
        assert(args[i] != a && args[i] != b);
    } else if j < i {
        assert(args[j] != a && args[j] != b);
    }
}

/// Writing one spelling of a flag in place of the other leaves the value
/// after the first flag as it was, unless that value is itself the
/// rewritten argument; then both values are spellings of the flag.
proof fn lemma_flag_respelled(args: Seq<Seq<char>>, a: Seq<char>, b: Seq<char>, k: int, x: Seq<char>)
    requires
        0 <= k < args.len(),
        args[k] == a || args[k] == b,
        x == a || x == b,
    ensures
        flag_value(args.update(k, x), a, b) == flag_value(args, a, b) || (
            flag_value(args, a, b) matches Some(v) && (v == a || v == b)
            && flag_value(args.update(k, x), a, b) == Some(x)),
{
    let args2 = args.update(k, x);
    assert forall|i: int| first_flag_at(args2, a, b, i) <==> first_flag_at(args, a, b, i) by {
        assert forall|j: int| 0 <= j < args.len() implies ((args2[j] == a || args2[j] == b) <==> (
            args[j] == a || args[j] == b)) by {
            if j == k {
            }
        }
        if first_flag_at(args2, a, b, i) {
            assert forall|j: int| 0 <= j < i implies #[trigger] args[j] != a && args[j] != b by {
                assert(args2[j] != a && args2[j] != b);
            }
        }
        if first_flag_at(args, a, b, i) {
            assert forall|j: int| 0 <= j < i implies #[trigger] args2[j] != a && args2[j] != b by {
                assert(args[j] != a && args[j] != b);
            }
        }
    }
    if exists|i: int| first_flag_at(args, a, b, i) {
        let i = choose|i: int| first_flag_at(args, a, b, i);
        assert(first_flag_at(args2, a, b, i));
        let i2 = choose|i: int| first_flag_at(args2, a, b, i);
        assert(first_flag_at(args, a, b, i2));
        lemma_first_flag_unique(args, a, b, i, i2);
    } else {
        assert forall|i: int| !first_flag_at(args2, a, b, i) by {
            if first_flag_at(args2, a, b, i) {
                assert(first_flag_at(args, a, b, i));
            }
        }
    }
}

/// Law: `-n` and `--rows` are one flag: writing either spelling in place of
/// the other, anywhere on the command line, leaves the rows budget as it was.
pub proof fn lemma_rows_flag_spellings(args: Seq<Seq<char>>, k: int, x: Seq<char>)
    requires
        0 <= k < args.len(),
        args[k] == "-n"@ || args[k] == "--rows"@,
        x == "-n"@ || x == "--rows"@,
    ensures
        rows_of(args.update(k, x)) == rows_of(args),
{
    reveal_strlit("-n");
    reveal_strlit("--rows");
    lemma_flag_respelled(args, "-n"@, "--rows"@, k, x);
    assert(!text::is_digit("-n"@[0]));
    assert(!text::is_digit("--rows"@[0]));
    assert(number::parse_usize("-n"@) is None);
    assert(number::parse_usize("--rows"@) is None);
}

/// Law: `-i` and `--interval` are one flag: writing either spelling in place
/// of the other, anywhere on the command line, leaves the interval as it was.
pub proof fn lemma_interval_flag_spellings(args: Seq<Seq<char>>, k: int, x: Seq<char>)
    requires
        0 <= k < args.len(),
        args[k] == "-i"@ || args[k] == "--interval"@,
        x == "-i"@ || x == "--interval"@,
    ensures
        interval_of(args.update(k, x)) == interval_of(args),
{
    reveal_strlit("-i");
    reveal_strlit("--interval");
    lemma_flag_respelled(args, "-i"@, "--interval"@, k, x);
    assert(!text::is_digit("-i"@[0]));
    assert(!text::is_digit("--interval"@[0]));
    assert(number::parse_u64("-i"@) is None);
    assert(number::parse_u64("--interval"@) is None);
}

/// Law: the value after a first `-n` (or `--rows`) is the rows budget where
/// it reads as a number, and 50 where it does not.
pub proof fn lemma_rows_read_after_flag(prog: Seq<char>, flag: Seq<char>, v: Seq<char>)
    requires
        prog != "-n"@ && prog != "--rows"@,
        flag == "-n"@ || flag == "--rows"@,
    ensures
        rows_of(seq![prog, flag, v]) == match number::parse_usize(v) {
            Some(n) => n,
            None => 50usize,
        },
{
    let args = seq![prog, flag, v];
    assert(first_flag_at(args, "-n"@, "--rows"@, 1));
    let i = choose|i: int| first_flag_at(args, "-n"@, "--rows"@, i);
    lemma_first_flag_unique(args, "-n"@, "--rows"@, i, 1);
}

/// Reads the command line (`args[0]` being the program).
pub fn parse_options(args: &Vec<String>) -> (r: Options)
    ensures
        r.help == has_flag(args.deep_view(), "-h"@, "--help"@),
        r.interval_ms == interval_of(args.deep_view()),
        r.max_rows == rows_of(args.deep_view()),
        r.no_power == has_flag(args.deep_view(), "--no-power"@, "--no-power"@),
{
    let help = any_flag(args, "-h", "--help");
    let no_power = any_flag(args, "--no-power", "--no-power");
    let interval_ms = match find_flag(args, "-i", "--interval") {
        Some(v) => {
            let c = text::chars_of(v);
            assert(c@.subrange(0, c@.len() as int) =~= c@);
            match number::parse_u64_range(&c, 0, c.len()) {
                Some(n) => n,
                None => 1500,
            }
        },
        None => 1500,
    };
    let max_rows = match find_flag(args, "-n", "--rows") {
        Some(v) => {
            let c = text::chars_of(v);
            assert(c@.subrange(0, c@.len() as int) =~= c@);
            match number::parse_usize_range(&c, 0, c.len()) {
                Some(n) => n,
                None => 50,
            }
        },
        None => 50,
    };
    Options { help, interval_ms, max_rows, no_power }
}

/// The name the help shows for the program: what follows the last `'/'` of
/// `args[0]`, or `monitor` where there is no `args[0]`.
pub fn program_name(args: &Vec<String>) -> (r: String)
    ensures
        r@ == if args.deep_view().len() > 0 {
            label::base_name(args.deep_view()[0])
        } else {
            "monitor"@
        },
{
    if args.len() == 0 {
        return String::from_str("monitor");
    }
    let v = text::chars_of(args[0].as_str());
    assert(v@ == args.deep_view()[0]);
    assert(v@.subrange(0, v@.len() as int) =~= v@);
    let ps = text::split_ranges(&v, 0, v.len(), text::Sep::Char('/'));
    proof {
        text::lemma_split_nonempty(v@, text::Sep::Char('/'));
    }
    let (a, b) = ps[ps.len() - 1];
    assert(text::range_texts(v@, ps@)[ps@.len() - 1] == v@.subrange(a as int, b as int));
    text::string_of(&v, a, b)
}

/// The terminal width: the `COLUMNS` variable where it is set and reads as
/// a number, 160 otherwise.
pub fn columns_from(var: Option<&str>) -> (r: usize)
    ensures
        r == match var {
            Some(t) => match number::parse_usize(t@) {
                Some(n) => n,
                None => 160,
            },
            None => 160,
        },
{
    match var {
        Some(t) => {
            let c = text::chars_of(t);
            assert(c@.subrange(0, c@.len() as int) =~= c@);
            match number::parse_usize_range(&c, 0, c.len()) {
                Some(n) => n,
                None => 160,
            }
        },
        None => 160,
    }
}

} // verus!
