//! Human labels for processes: what a command line says about the program
//! behind it (the Happy wrapper, SmartGit, Guake, MySQL, browsers).
use vstd::prelude::*;
use std::collections::HashMap;
use crate::text;
use crate::procfs::Sample;

verus! {

broadcast use vstd::std_specs::hash::group_hash_axioms;

/// The arguments of a sample, as text.
pub open spec fn args_of(s: Sample) -> Seq<Seq<char>> {
    s.cmdline_args.deep_view()
}

/// The last non-empty component of the sample's working directory.
pub open spec fn folder_of(s: Sample) -> Option<Seq<char>> {
    match s.cwd {
        Some(p) => {
            let t = text::tokens(p@, '/');
            if t.len() > 0 {
                Some(t.last())
            } else {
                None
            }
        },
        None => None,
    }
}

/// The last non-empty component of the process's working directory
/// (`cwd.rsplit('/').find(|s| !s.is_empty())`).
pub fn cwd_basename(sample: &Sample) -> (r: Option<&str>)
    ensures
        match folder_of(*sample) {
            Some(f) => r matches Some(x) && x@ == f,
            None => r is None,
        },
{
    match &sample.cwd {
        Some(p) => {
            let ps: &str = p.as_str();
            let v = text::chars_of(ps);
            assert(v@.subrange(0, v@.len() as int) =~= v@);
            let ts = text::token_ranges(&v, 0, v.len(), '/');
            if ts.len() == 0 {
                return None;
            }
            let (a, b) = ts[ts.len() - 1];
            assert(text::range_texts(v@, ts@)[ts@.len() - 1] == v@.subrange(a as int, b as int));
            Some(ps.substring_char(a, b))
        },
        None => None,
    }
}

/// An argument that marks SmartGit.
pub open spec fn smartgit_arg(a: Seq<char>) -> bool {
    text::contains(a, "/smartgit/"@) || text::ends_with(a, "/smartgit.sh"@)
}

/// The sample is SmartGit.
pub open spec fn smartgit(s: Sample) -> bool {
    exists|i: int| 0 <= i < args_of(s).len() && smartgit_arg(#[trigger] args_of(s)[i])
}

/// Whether the process is SmartGit.
pub fn is_smartgit(sample: &Sample) -> (r: bool)
    ensures
        r == smartgit(*sample),
{
    let mut i: usize = 0;
    while i < sample.cmdline_args.len()
        invariant
            0 <= i <= args_of(*sample).len(),
            forall|j: int| 0 <= j < i ==> !smartgit_arg(#[trigger] args_of(*sample)[j]),
        decreases args_of(*sample).len() - i,
    {
        let a: &str = sample.cmdline_args[i].as_str();
        assert(a@ == args_of(*sample)[i as int]);
        if text::str_contains(a, "/smartgit/") || text::str_ends_with(a, "/smartgit.sh") {
            return true;
        }
        i = i + 1;
    }
    false
}

/// An argument that is the Happy wrapper's script (or its launcher shim).
pub open spec fn happy_script(a: Seq<char>) -> bool {
    text::contains(a, "/happy/dist/"@) || text::contains(a, "/happy/scripts/"@)
}

/// `i` is the first argument after `argv[0]` that is the Happy script.
pub open spec fn happy_script_at(args: Seq<Seq<char>>, i: int) -> bool {
    &&& 1 <= i < args.len()
    &&& happy_script(args[i])
    &&& forall|j: int| 1 <= j < i ==> !happy_script(#[trigger] args[j])
}

/// The sub-command that follows the Happy script on a command line: the
/// argument after it, or the empty text where there is none; `None` where
/// no argument after `argv[0]` is the script.
pub open spec fn happy_command(args: Seq<Seq<char>>) -> Option<Seq<char>> {
    if exists|i: int| happy_script_at(args, i) {
        let i = choose|i: int| happy_script_at(args, i);
        if i + 1 < args.len() {
            Some(args[i + 1])
        } else {
            Some(Seq::empty())
        }
    } else {
        None
    }
}

/// The `node .../happy/dist/index.mjs <cmd>` wrapper script (or its launcher
/// shim under `happy/scripts/`). Returns the sub-command (`daemon`, or the
/// program it runs) so daemons can be told from session wrappers.
pub fn happy_subcommand(sample: &Sample) -> (r: Option<&str>)
    ensures
        match happy_command(args_of(*sample)) {
            Some(c) => r matches Some(x) && x@ == c,
            None => r is None,
        },
{
    let ghost args = args_of(*sample);
    let n = sample.cmdline_args.len();
    if n == 0 {
        assert(!exists|i: int| happy_script_at(args, i));
        return None;
    }
    let mut i: usize = 1;
    while i < n
        invariant
            1 <= i <= n,
            n == args.len(),
            args == args_of(*sample),
            forall|j: int| 1 <= j < i ==> !happy_script(#[trigger] args[j]),
        decreases n - i,
    {
        let a: &str = sample.cmdline_args[i].as_str();
        assert(a@ == args[i as int]);
        if text::str_contains(a, "/happy/dist/") || text::str_contains(a, "/happy/scripts/") {
            assert(happy_script_at(args, i as int));
            proof {
                assert forall|k: int| happy_script_at(args, k) implies k == i by {
                    if k < i {
                        assert(!happy_script(args[k]));
                    } else if k > i {
                        assert(!happy_script(args[i as int]));
                    }
                }
            }
            if i + 1 < n {
                let c: &str = sample.cmdline_args[i + 1].as_str();
                return Some(c);
            } else {
                let e: &str = "";
                proof {
                    reveal_strlit("");
                }
                assert(e@ =~= Seq::<char>::empty());
                return Some(e);
            }
        }
        i = i + 1;
    }
    assert(!exists|k: int| happy_script_at(args, k));
    None
}

/// An argument that shows the process was launched through Happy: `happy`
/// itself, the yarn shim path, the installed module path or its launcher script.
pub open spec fn happy_marker(a: Seq<char>) -> bool {
    ||| a == "happy"@
    ||| text::ends_with(a, "/happy"@)
    ||| text::contains(a, "/happy/dist/"@)
    ||| text::contains(a, "/happy/scripts/"@)
    ||| text::contains(a, "/.yarn/bin/happy"@)
}

/// Some argument of `args` shows a launch through Happy.
pub open spec fn launched_via_happy(args: Seq<Seq<char>>) -> bool {
    exists|i: int| 0 <= i < args.len() && happy_marker(#[trigger] args[i])
}

/// The parent pid that the snapshot records for `pid`, 0 if it holds no such process.
pub open spec fn parent_of(snap: Map<u32, Sample>, pid: u32) -> u32 {
    if snap.contains_key(pid) {
        snap[pid].ppid
    } else {
        0
    }
}

/// The `k`-th ancestor of `pid` along the recorded parent pids (0: the parent).
pub open spec fn ancestor(snap: Map<u32, Sample>, pid: u32, k: nat) -> u32
    decreases k,
{
    if k == 0 {
        parent_of(snap, pid)
    } else {
        parent_of(snap, ancestor(snap, pid, (k - 1) as nat))
    }
}

/// The ancestors up to the `k`-th are all real processes of the snapshot.
pub open spec fn ancestors_present(snap: Map<u32, Sample>, pid: u32, k: nat) -> bool {
    forall|j: nat| j <= k ==> #[trigger] ancestor(snap, pid, j) != 0 && snap.contains_key(
        ancestor(snap, pid, j),
    )
}

/// The walk up the parent pids from `pid` stops after `n` steps: at pid 0
/// or at a pid that the snapshot does not hold.
pub open spec fn walk_stops_at(snap: Map<u32, Sample>, pid: u32, n: nat) -> bool {
    &&& ancestor(snap, pid, n) == 0 || !snap.contains_key(ancestor(snap, pid, n))
    &&& forall|j: nat| j < n ==> #[trigger] ancestor(snap, pid, j) != 0 && snap.contains_key(
        ancestor(snap, pid, j),
    )
}

/// The walk up the parent pids from `pid` ends (the recorded parents hold no cycle).
pub open spec fn ancestry_ends(snap: Map<u32, Sample>, pid: u32) -> bool {
    exists|n: nat| walk_stops_at(snap, pid, n)
}

/// Some ancestor of `pid`, reached through real processes, was launched through Happy.
pub open spec fn happy_ancestor(snap: Map<u32, Sample>, pid: u32) -> bool {
    exists|k: nat|
        ancestors_present(snap, pid, k) && launched_via_happy(
            args_of(snap[#[trigger] ancestor(snap, pid, k)]),
        )
}

/// Whether some argument of `args` shows a launch through Happy.
fn args_show_happy(args: &Vec<String>) -> (r: bool)
    ensures
        r == launched_via_happy(args.deep_view()),
{
    let mut i: usize = 0;
    while i < args.len()
        invariant
            0 <= i <= args.deep_view().len(),
            forall|j: int| 0 <= j < i ==> !happy_marker(#[trigger] args.deep_view()[j]),
        decreases args.deep_view().len() - i,
    {
        let a: &str = args[i].as_str();
        assert(a@ == args.deep_view()[i as int]);
        if text::str_equals(a, "happy") || text::str_ends_with(a, "/happy") || text::str_contains(
            a,
            "/happy/dist/",
        ) || text::str_contains(a, "/happy/scripts/") || text::str_contains(a, "/.yarn/bin/happy") {
            return true;
        }
        i = i + 1;
    }
    false
}

/// True if any ancestor (via real ppid in /proc) was launched through Happy.
pub fn ancestor_via_happy(pid: u32, snap: &HashMap<u32, Sample>) -> (r: bool)
    requires
        ancestry_ends(snap@, pid),
    ensures
        r == happy_ancestor(snap@, pid),
{
    let ghost n = choose|n: nat| walk_stops_at(snap@, pid, n);
    let mut next: u32 = match snap.get(&pid) {
        Some(s) => s.ppid,
        None => 0,
    };
    let ghost mut k: nat = 0;
    assert(next == ancestor(snap@, pid, 0));
    while next != 0
        invariant
            walk_stops_at(snap@, pid, n),
            next == ancestor(snap@, pid, k),
            k <= n,
            forall|j: nat| j < k ==> ancestor(snap@, pid, j) != 0 && snap@.contains_key(ancestor(snap@, pid, j)),
            forall|j: nat|
                j < k ==> !launched_via_happy(args_of(snap@[#[trigger] ancestor(snap@, pid, j)])),
        decreases n - k,
    {
        let parent = match snap.get(&next) {
            Some(p) => p,
            None => {
                proof {
                    assert forall|m: nat| ancestors_present(snap@, pid, m) implies !launched_via_happy(
                        args_of(snap@[#[trigger] ancestor(snap@, pid, m)]),
                    ) by {
                        if m >= k {
                            assert(ancestor(snap@, pid, k) != 0 && snap@.contains_key(ancestor(snap@, pid, k)));
                        }
                    }
                }
                return false;
            },
        };
        assert(k < n);
        if args_show_happy(&parent.cmdline_args) {
            assert(ancestors_present(snap@, pid, k)) by {
                assert forall|j: nat| j <= k implies #[trigger] ancestor(snap@, pid, j) != 0
                    && snap@.contains_key(ancestor(snap@, pid, j)) by {
                    if j < k {
                    }
                }
            }
            assert(launched_via_happy(args_of(snap@[ancestor(snap@, pid, k)])));
            return true;
        }
        next = parent.ppid;
        proof {
            k = k + 1;
        }
    }
    proof {
        assert forall|m: nat| ancestors_present(snap@, pid, m) implies !launched_via_happy(
            args_of(snap@[#[trigger] ancestor(snap@, pid, m)]),
        ) by {
            if m >= k {
                assert(ancestor(snap@, pid, k) != 0 && snap@.contains_key(ancestor(snap@, pid, k)));
            }
        }
    }
    false
}


/// The texts `ps` joined with `sep` between them (`[..].join(sep)`).
pub open spec fn join(ps: Seq<Seq<char>>, sep: Seq<char>) -> Seq<char>
    decreases ps.len(),
{
    if ps.len() == 0 {
        Seq::empty()
    } else if ps.len() == 1 {
        ps[0]
    } else {
        join(ps.drop_last(), sep) + sep + ps.last()
    }
}

/// What follows the last `'/'` of a path (`rsplit('/').next()`).
pub open spec fn base_name(a: Seq<char>) -> Seq<char> {
    text::split(a, text::Sep::Char('/')).last()
}

/// The sample runs the Guake terminal (`python3 /usr/bin/guake`).
pub open spec fn guake(s: Sample) -> bool {
    exists|i: int| 0 <= i < args_of(s).len() && base_name(#[trigger] args_of(s)[i]) == "guake"@
}

/// The label of the process `pid`: a short name for Happy, SmartGit and
/// Guake; a MySQL server with the folder it serves from;
/// otherwise the executable's base name and the remaining
/// arguments; the command name in brackets where there is no command line.
pub open spec fn pretty_label(pid: u32, s: Sample, snap: Map<u32, Sample>) -> Seq<char> {
    let args = args_of(s);
    if happy_command(args) is Some {
        if happy_command(args)->0 == "daemon"@ {
            "Happy daemon"@
        } else {
            match folder_of(s) {
                Some(f) => "Happy ("@ + f + ")"@,
                None => "Happy"@,
            }
        }
    } else if smartgit(s) {
        "SmartGit"@
    } else if guake(s) {
        "Guake terminal"@
    } else if args.len() == 0 {
        "["@ + s.comm@ + "]"@
    } else if base_name(args[0]) == "mysqld"@ && folder_of(s) is Some {
        "mysqld ("@ + folder_of(s)->0 + ")"@
    } else if args.len() > 1 {
        base_name(args[0]) + " "@ + join(args.subrange(1, args.len() as int), " "@)
    } else {
        base_name(args[0])
    }
}

/// Law: where a process has a command line, its label does not read its
/// command name: two samples with the same arguments and working directory
/// get the same label, whatever their command names.
pub proof fn lemma_label_ignores_comm(pid: u32, s: Sample, t: Sample, snap: Map<u32, Sample>)
    requires
        args_of(s) == args_of(t),
        s.cwd == t.cwd,
        args_of(s).len() > 0,
    ensures
        pretty_label(pid, s, snap) == pretty_label(pid, t, snap),
{
    assert(folder_of(s) == folder_of(t));
    assert(smartgit(s) == smartgit(t));
    assert(guake(s) == guake(t));
}

/// Law: a process that none of the short names fits is labelled by its
/// executable's base name, followed by its other arguments, each after a
/// space.
pub proof fn lemma_plain_label(pid: u32, s: Sample, snap: Map<u32, Sample>)
    requires
        happy_command(args_of(s)) is None,
        !smartgit(s),
        !guake(s),
        args_of(s).len() > 0,
        base_name(args_of(s)[0]) != "mysqld"@,
    ensures
        args_of(s).len() == 1 ==> pretty_label(pid, s, snap) == base_name(args_of(s)[0]),
        args_of(s).len() > 1 ==> pretty_label(pid, s, snap) == base_name(args_of(s)[0]) + " "@ + join(
            args_of(s).subrange(1, args_of(s).len() as int),
            " "@,
        ),
{
}

/// Law: a process without a command line (a kernel thread, a zombie) is
/// labelled by its command name in brackets.
pub proof fn lemma_bare_label(pid: u32, s: Sample, snap: Map<u32, Sample>)
    requires
        args_of(s).len() == 0,
    ensures
        pretty_label(pid, s, snap) == "["@ + s.comm@ + "]"@,
{
    assert(happy_command(args_of(s)) is None) by {
        if exists|i: int| happy_script_at(args_of(s), i) {
            let i = choose|i: int| happy_script_at(args_of(s), i);
        }
    }
    assert(!smartgit(s));
    assert(!guake(s));
}

/// Appends the base name of `a` to `out`.
fn push_base_name(out: &mut String, a: &str)
    ensures
        final(out)@ == old(out)@ + base_name(a@),
{
    let v = text::chars_of(a);
    assert(v@.subrange(0, v@.len() as int) =~= v@);
    let ps = text::split_ranges(&v, 0, v.len(), text::Sep::Char('/'));
    proof {
        text::lemma_split_nonempty(v@, text::Sep::Char('/'));
    }
    let (x, y) = ps[ps.len() - 1];
    assert(text::range_texts(v@, ps@)[ps@.len() - 1] == v@.subrange(x as int, y as int));
    text::push_range(out, &v, x, y);
}

/// Whether the process runs the Guake terminal.
pub fn is_guake(sample: &Sample) -> (r: bool)
    ensures
        r == guake(*sample),
{
    let mut i: usize = 0;
    while i < sample.cmdline_args.len()
        invariant
            0 <= i <= args_of(*sample).len(),
            forall|j: int| 0 <= j < i ==> base_name(#[trigger] args_of(*sample)[j]) != "guake"@,
        decreases args_of(*sample).len() - i,
    {
        let a: &str = sample.cmdline_args[i].as_str();
        assert(a@ == args_of(*sample)[i as int]);
        let mut b = String::new();
        push_base_name(&mut b, a);
        assert(b@ =~= base_name(a@));
        if text::str_equals(b.as_str(), "guake") {
            return true;
        }
        i = i + 1;
    }
    false
}

/// Show the executable's basename + remaining args; fall back to comm in brackets
/// for kernel threads and zombies that have no cmdline. Happy, SmartGit,
/// Guake and MySQL servers get shorter labels.
pub fn pretty_cmdline(pid: u32, sample: &Sample, snap: &HashMap<u32, Sample>) -> (r: String)
    ensures
        r@ == pretty_label(pid, *sample, snap@),
{
    let ghost args = args_of(*sample);
    match happy_subcommand(sample) {
        Some(cmd) => {
            let mut out = String::new();
            if text::str_equals(cmd, "daemon") {
                out.append("Happy daemon");
            } else {
                match cwd_basename(sample) {
                    Some(f) => {
                        out.append("Happy (");
                        out.append(f);
                        out.append(")");
                    },
                    None => {
                        out.append("Happy");
                    },
                }
            }
            return out;
        },
        None => {},
    }
    if is_smartgit(sample) {
        let mut out = String::new();
        out.append("SmartGit");
        return out;
    }
    if is_guake(sample) {
        let mut out = String::new();
        out.append("Guake terminal");
        return out;
    }
    let n = sample.cmdline_args.len();
    let mut out = String::new();
    if n == 0 {
        out.append("[");
        out.append(sample.comm.as_str());
        out.append("]");
        return out;
    }
    push_base_name(&mut out, sample.cmdline_args[0].as_str());
    assert(out@ =~= base_name(args[0]));
    if text::str_equals(out.as_str(), "mysqld") {
        match cwd_basename(sample) {
            Some(f) => {
                let mut m = String::new();
                m.append("mysqld (");
                m.append(f);
                m.append(")");
                return m;
            },
            None => {},
        }
    }
    if n > 1 {
        let ghost start = out@;
        out.append(" ");
        let ghost rest = args.subrange(1, n as int);
        let mut i: usize = 1;
        while i < n
            invariant
                1 <= i <= n,
                n == args.len(),
                args == args_of(*sample),
                rest == args.subrange(1, n as int),
                out@ == start + " "@ + join(rest.take(i - 1), " "@),
            decreases n - i,
        {
            let a: &str = sample.cmdline_args[i].as_str();
            assert(a@ == args[i as int]);
            assert(rest.take(i as int).drop_last() =~= rest.take(i - 1));
            assert(rest.take(i as int).last() == args[i as int]);
            if i > 1 {
                out.append(" ");
            }
            out.append(a);
            proof {
                if i == 1 {
                    assert(rest.take(0) =~= Seq::<Seq<char>>::empty());
                    assert(rest.take(1) =~= seq![args[1]]);
                    assert(out@ =~= start + " "@ + join(rest.take(i as int), " "@));
                } else {
                    assert(out@ =~= start + " "@ + join(rest.take(i as int), " "@));
                }
            }
            i = i + 1;
        }
        assert(rest.take(n - 1) =~= rest);
    }
    out
}

/// The command names of the browsers whose whole process tree is shown as one line.
pub open spec fn browser_name(c: Seq<char>) -> bool {
    ||| c == "librewolf"@
    ||| c == "firefox"@
    ||| c == "chrome"@
    ||| c == "chromium"@
    ||| c == "chromium-browse"@
    ||| c == "opera"@
    ||| c == "brave"@
    ||| c == "brave-browser"@
    ||| c == "vivaldi"@
    ||| c == "vivaldi-bin"@
}

/// An argument that marks a browser's worker (sub-)process.
pub open spec fn worker_arg(a: Seq<char>) -> bool {
    text::starts_with(a, "--type="@) || a == "-contentproc"@
}

/// The sample is the main process of a browser.
pub open spec fn collapse_root(s: Sample) -> bool {
    browser_name(s.comm@) && !exists|i: int| 0 <= i < args_of(s).len() && worker_arg(
        #[trigger] args_of(s)[i],
    )
}

/// Processes whose entire subtree should fold into the one line we already
/// print for them. Major browsers (firefox/librewolf, chrome/chromium, opera,
/// brave, vivaldi) spawn dozens of helpers that are noisy individually.
pub fn is_collapse_root(sample: &Sample) -> (r: bool)
    ensures
        r == collapse_root(*sample),
{
    let c: &str = sample.comm.as_str();
    let browser = text::str_equals(c, "librewolf") || text::str_equals(c, "firefox")
        || text::str_equals(c, "chrome") || text::str_equals(c, "chromium") || text::str_equals(
        c,
        "chromium-browse",
    ) || text::str_equals(c, "opera") || text::str_equals(c, "brave") || text::str_equals(
        c,
        "brave-browser",
    ) || text::str_equals(c, "vivaldi") || text::str_equals(c, "vivaldi-bin");
    if !browser {
        return false;
    }
    // The "main" browser process has no subprocess-type flag; workers do.
    // Chromium uses `--type=renderer/gpu-process/zygote/utility/...`,
    // Firefox/derivatives use `-contentproc`.
    let mut i: usize = 0;
    while i < sample.cmdline_args.len()
        invariant
            0 <= i <= args_of(*sample).len(),
            browser_name(sample.comm@),
            forall|j: int| 0 <= j < i ==> !worker_arg(#[trigger] args_of(*sample)[j]),
        decreases args_of(*sample).len() - i,
    {
        let a: &str = sample.cmdline_args[i].as_str();
        assert(a@ == args_of(*sample)[i as int]);
        if text::str_starts_with(a, "--type=") || text::str_equals(a, "-contentproc") {
            return false;
        }
        i = i + 1;
    }
    true
}

} // verus!
