//! One frame of the monitor: what two snapshots of `/proc` say together
//! (CPU used per process, the process tree, the session leaderboard).
use vstd::prelude::*;
use std::collections::HashMap;
use crate::procfs::Sample;
use crate::label;
use crate::tree;

verus! {

broadcast use vstd::std_specs::hash::group_hash_axioms;

/// The keys of a map, each once, in the map's own order.
pub fn keys_of<V>(m: &HashMap<u32, V>) -> (r: Vec<u32>)
    ensures
        r@.no_duplicates(),
        forall|p: u32| r@.contains(p) <==> m@.contains_key(p),
{
    let mut out: Vec<u32> = Vec::new();
    let ghost all = vstd::std_specs::iter::IteratorSpec::remaining(
        &vstd::std_specs::hash::spec_keys_iter(m),
    ).unref();
    for k in it: m.keys()
        invariant
            all == it.seq().unref(),
            all.no_duplicates(),
            all.to_set() == m@.dom(),
            out@ == all.take(it.index() as int),
    {
        out.push(*k);
        assert(all.take(it.index() + 1) =~= all.take(it.index() as int).push(*k));
    }
    assert(all.take(all.len() as int) =~= all);
    assert forall|p: u32| out@.contains(p) <==> m@.contains_key(p) by {
        if m@.contains_key(p) {
            assert(all.to_set().contains(p));
        }
        if out@.contains(p) {
            assert(all.to_set().contains(p));
        }
    }
    out
}

/// A prefix one longer holds one more pid.
proof fn lemma_take_one_more(s: Seq<u32>, i: int, p: u32)
    requires
        0 <= i < s.len(),
    ensures
        s.take(i + 1).contains(p) <==> s.take(i).contains(p) || p == s[i],
{
    assert(s.take(i + 1) =~= s.take(i).push(s[i]));
    let t = s.take(i);
    if t.push(s[i]).contains(p) && p != s[i] {
        let k = choose|k: int| 0 <= k < t.push(s[i]).len() && t.push(s[i])[k] == p;
        assert(t[k] == p);
    }
    if t.contains(p) {
        let k = choose|k: int| 0 <= k < t.len() && t[k] == p;
        assert(t.push(s[i])[k] == p);
    }
    if p == s[i] {
        assert(t.push(s[i])[i] == p);
    }
}

/// A list with one more pid holds that pid too.
proof fn lemma_push_contains(s: Seq<u32>, x: u32, p: u32)
    ensures
        s.push(x).contains(p) <==> s.contains(p) || p == x,
{
    lemma_take_one_more(s.push(x), s.len() as int, p);
    assert(s.push(x).take(s.len() as int) =~= s);
    assert(s.push(x).take(s.len() as int + 1) =~= s.push(x));
}

/// A pid of a list without duplicates is not in the prefix before it.
proof fn lemma_not_in_prefix(s: Seq<u32>, i: int)
    requires
        0 <= i < s.len(),
        s.no_duplicates(),
    ensures
        !s.take(i).contains(s[i]),
{
    if s.take(i).contains(s[i]) {
        let t = s.take(i);
        let k = choose|k: int| 0 <= k < t.len() && t[k] == s[i];
        assert(s[k] == s[i]);
    }
}

// ---------------------------------------------------------------------------
// CPU used during the frame
// ---------------------------------------------------------------------------

/// The jiffies `pid` used between the two snapshots: 0 for a process that
/// is new (or whose counter went back).
pub open spec fn frame_delta(prev: Map<u32, Sample>, cur: Map<u32, Sample>, pid: u32) -> u64 {
    if prev.contains_key(pid) && cur[pid].cpu_jiffies >= prev[pid].cpu_jiffies {
        (cur[pid].cpu_jiffies - prev[pid].cpu_jiffies) as u64
    } else {
        0
    }
}

/// The jiffies each process of `cur` used since `prev`.
pub fn frame_deltas(prev: &HashMap<u32, Sample>, cur: &HashMap<u32, Sample>) -> (r: HashMap<
    u32,
    u64,
>)
    ensures
        r@.dom() == cur@.dom(),
        forall|p: u32| #[trigger] r@.contains_key(p) ==> r@[p] == frame_delta(prev@, cur@, p),
{
    let pids = keys_of(cur);
    let mut out: HashMap<u32, u64> = HashMap::new();
    let mut i: usize = 0;
    while i < pids.len()
        invariant
            0 <= i <= pids@.len(),
            forall|p: u32| pids@.contains(p) <==> cur@.contains_key(p),
            forall|p: u32| #[trigger] out@.contains_key(p) <==> pids@.take(i as int).contains(p),
            forall|p: u32| #[trigger] out@.contains_key(p) ==> out@[p] == frame_delta(prev@, cur@, p),
        decreases pids@.len() - i,
    {
        let pid = pids[i];
        assert(pids@.contains(pid));
        let after = match cur.get(&pid) {
            Some(s) => s,
            None => {
                assert(false);
                return out;
            },
        };
        let d: u64 = match prev.get(&pid) {
            Some(before) => after.cpu_jiffies.saturating_sub(before.cpu_jiffies),
            None => 0,
        };
        out.insert(pid, d);
        assert forall|p: u32| #[trigger] out@.contains_key(p) <==> pids@.take(i + 1).contains(p) by {
            lemma_take_one_more(pids@, i as int, p);
        }
        i = i + 1;
    }
    assert(pids@.take(pids@.len() as int) =~= pids@);
    assert(out@.dom() =~= cur@.dom());
    out
}

// ---------------------------------------------------------------------------
// The process tree
// ---------------------------------------------------------------------------

/// The children map of a snapshot lists, under each parent pid, exactly the
/// processes whose parent it is, each once.
pub open spec fn children_of_snapshot(snap: Map<u32, Sample>, children: Map<u32, Vec<u32>>) -> bool {
    &&& forall|q: u32, c: u32|
        #[trigger] tree::child_of(children, q, c) <==> snap.contains_key(c) && snap[c].ppid == q
    &&& forall|q: u32| #[trigger] children.contains_key(q) ==> children[q]@.len() > 0
        && children[q]@.no_duplicates()
}

/// The children of every parent pid, from the parent pids the snapshot records.
pub fn children_map(snap: &HashMap<u32, Sample>) -> (r: HashMap<u32, Vec<u32>>)
    ensures
        children_of_snapshot(snap@, r@),
{
    let pids = keys_of(snap);
    let mut out: HashMap<u32, Vec<u32>> = HashMap::new();
    let mut i: usize = 0;
    while i < pids.len()
        invariant
            0 <= i <= pids@.len(),
            pids@.no_duplicates(),
            forall|p: u32| pids@.contains(p) <==> snap@.contains_key(p),
            forall|q: u32, c: u32|
                #[trigger] tree::child_of(out@, q, c) <==> pids@.take(i as int).contains(c)
                    && snap@[c].ppid == q,
            forall|q: u32| #[trigger] out@.contains_key(q) ==> out@[q]@.len() > 0
                && out@[q]@.no_duplicates(),
        decreases pids@.len() - i,
    {
        let pid = pids[i];
        assert(pids@.contains(pid));
        let sample = match snap.get(&pid) {
            Some(s) => s,
            None => {
                assert(false);
                return out;
            },
        };
        let q = sample.ppid;
        let ghost before = out@;
        let mut list: Vec<u32> = match out.remove(&q) {
            Some(l) => l,
            None => Vec::new(),
        };
        assert(list@ == tree::kids(before, q));
        assert(!list@.contains(pid)) by {
            lemma_not_in_prefix(pids@, i as int);
            if list@.contains(pid) {
                assert(tree::child_of(before, q, pid));
            }
        }
        let ghost old_list = list@;
        list.push(pid);
        out.insert(q, list);
        assert(tree::kids(out@, q) == old_list.push(pid));
        assert forall|q2: u32, c: u32|
            #[trigger] tree::child_of(out@, q2, c) <==> pids@.take(i + 1).contains(c) && snap@[c].ppid
                == q2 by {
            assert(pids@.take(i + 1) =~= pids@.take(i as int).push(pid));
            assert(tree::child_of(before, q2, c) <==> pids@.take(i as int).contains(c)
                && snap@[c].ppid == q2);
            if q2 != q {
                assert(tree::kids(out@, q2) == tree::kids(before, q2));
            } else {
                lemma_push_contains(old_list, pid, c);
            }
            lemma_take_one_more(pids@, i as int, c);
        }
        assert forall|q2: u32| #[trigger] out@.contains_key(q2) implies out@[q2]@.len() > 0
            && out@[q2]@.no_duplicates() by {
            if q2 == q {
                assert forall|a: int, b: int| 0 <= a < b < old_list.len() + 1 implies old_list.push(pid)[a]
                    != old_list.push(pid)[b] by {
                    if b == old_list.len() {
                        assert(old_list.contains(old_list[a]));
                    }
                }
            }
        }
        i = i + 1;
    }
    assert(pids@.take(pids@.len() as int) =~= pids@);
    assert forall|q: u32, c: u32| #[trigger] tree::child_of(out@, q, c) <==> snap@.contains_key(c)
        && snap@[c].ppid == q by {}
    out
}

/// The processes whose parent the snapshot does not hold: the tops of the tree.
pub fn root_pids(snap: &HashMap<u32, Sample>) -> (r: Vec<u32>)
    ensures
        r@.no_duplicates(),
        forall|p: u32|
            r@.contains(p) <==> snap@.contains_key(p) && !snap@.contains_key(snap@[p].ppid),
{
    let pids = keys_of(snap);
    let mut out: Vec<u32> = Vec::new();
    let mut i: usize = 0;
    while i < pids.len()
        invariant
            0 <= i <= pids@.len(),
            pids@.no_duplicates(),
            forall|p: u32| pids@.contains(p) <==> snap@.contains_key(p),
            out@.no_duplicates(),
            forall|p: u32|
                out@.contains(p) <==> pids@.take(i as int).contains(p) && !snap@.contains_key(
                    snap@[p].ppid,
                ),
        decreases pids@.len() - i,
    {
        let pid = pids[i];
        assert(pids@.contains(pid));
        assert(pids@.take(i + 1) =~= pids@.take(i as int).push(pid));
        let sample = match snap.get(&pid) {
            Some(s) => s,
            None => {
                assert(false);
                return out;
            },
        };
        let ghost before = out@;
        if !snap.contains_key(&sample.ppid) {
            assert(!before.contains(pid)) by {
                lemma_not_in_prefix(pids@, i as int);
            }
            out.push(pid);
            assert forall|a: int, b: int| 0 <= a < b < out@.len() implies out@[a] != out@[b] by {
                if b == before.len() {
                    assert(before.contains(before[a]));
                }
            }
        }
        assert forall|p: u32| out@.contains(p) <==> pids@.take(i + 1).contains(p)
            && !snap@.contains_key(snap@[p].ppid) by {
            if out@.len() > before.len() {
                lemma_push_contains(before, pid, p);
            }
            lemma_take_one_more(pids@, i as int, p);
        }
        i = i + 1;
    }
    assert(pids@.take(pids@.len() as int) =~= pids@);
    out
}


// ---------------------------------------------------------------------------
// Sums over subtrees, and the session totals
// ---------------------------------------------------------------------------

/// The total that `m` records for each process of the snapshot and all its descendants.
pub fn subtree_map(
    snap: &HashMap<u32, Sample>,
    m: &HashMap<u32, u64>,
    children: &HashMap<u32, Vec<u32>>,
) -> (r: HashMap<u32, u64>)
    requires
        forall|p: u32| #[trigger] snap@.contains_key(p) ==> tree::finite_below(children@, p)
            && tree::subtree_sum(children@, m@, p) <= u64::MAX,
    ensures
        r@.dom() == snap@.dom(),
        forall|p: u32| #[trigger] r@.contains_key(p) ==> r@[p] == tree::subtree_sum(children@, m@, p),
{
    let pids = keys_of(snap);
    let mut out: HashMap<u32, u64> = HashMap::new();
    let mut i: usize = 0;
    while i < pids.len()
        invariant
            0 <= i <= pids@.len(),
            forall|p: u32| pids@.contains(p) <==> snap@.contains_key(p),
            forall|p: u32| #[trigger] snap@.contains_key(p) ==> tree::finite_below(children@, p)
                && tree::subtree_sum(children@, m@, p) <= u64::MAX,
            forall|p: u32| #[trigger] out@.contains_key(p) <==> pids@.take(i as int).contains(p),
            forall|p: u32| #[trigger] out@.contains_key(p) ==> out@[p] == tree::subtree_sum(children@, m@, p),
        decreases pids@.len() - i,
    {
        let pid = pids[i];
        assert(pids@.contains(pid));
        let total = tree::subtree_delta(pid, m, children);
        out.insert(pid, total);
        assert forall|p: u32| #[trigger] out@.contains_key(p) <==> pids@.take(i + 1).contains(p) by {
            lemma_take_one_more(pids@, i as int, p);
        }
        i = i + 1;
    }
    assert(pids@.take(pids@.len() as int) =~= pids@);
    assert(out@.dom() =~= snap@.dom());
    out
}

/// The session's running totals after a frame: each process that used CPU
/// gains what it used, and processes that are gone are dropped.
pub open spec fn cumulative_after(
    old_cum: Map<u32, u64>,
    deltas: Map<u32, u64>,
    cur: Map<u32, Sample>,
    p: u32,
) -> Option<nat> {
    if cur.contains_key(p) && (old_cum.contains_key(p) || tree::amount(deltas, p) > 0) {
        Some(tree::amount(old_cum, p) + tree::amount(deltas, p))
    } else {
        None
    }
}

/// Adds a frame's jiffies to the session's running totals, and drops
/// processes that no longer exist.
pub fn update_cumulative(
    cumulative: &mut HashMap<u32, u64>,
    deltas: &HashMap<u32, u64>,
    cur: &HashMap<u32, Sample>,
)
    requires
        forall|p: u32| tree::amount(old(cumulative)@, p) + tree::amount(deltas@, p) <= u64::MAX,
    ensures
        forall|p: u32| #[trigger] final(cumulative)@.contains_key(p) <==> cumulative_after(old(cumulative)@, deltas@, cur@, p) is Some,
        forall|p: u32| #[trigger] final(cumulative)@.contains_key(p) ==> final(cumulative)@[p] as nat
            == cumulative_after(old(cumulative)@, deltas@, cur@, p)->0,
{
    let ghost start = cumulative@;
    let ds = keys_of(deltas);
    let mut i: usize = 0;
    while i < ds.len()
        invariant
            0 <= i <= ds@.len(),
            ds@.no_duplicates(),
            forall|p: u32| ds@.contains(p) <==> deltas@.contains_key(p),
            forall|p: u32| tree::amount(start, p) + tree::amount(deltas@, p) <= u64::MAX,
            forall|p: u32| #[trigger] cumulative@.contains_key(p) <==> start.contains_key(p) || (
                ds@.take(i as int).contains(p) && tree::amount(deltas@, p) > 0),
            forall|p: u32| #[trigger] cumulative@.contains_key(p) ==> cumulative@[p] as nat == tree::amount(start, p)
                + if ds@.take(i as int).contains(p) {
                tree::amount(deltas@, p)
            } else {
                0
            },
        decreases ds@.len() - i,
    {
        let pid = ds[i];
        assert(ds@.contains(pid));
        proof {
            lemma_not_in_prefix(ds@, i as int);
        }
        let d: u64 = match deltas.get(&pid) {
            Some(x) => *x,
            None => 0,
        };
        if d > 0 {
            let have: u64 = match cumulative.get(&pid) {
                Some(x) => *x,
                None => 0,
            };
            cumulative.insert(pid, have + d);
        }
        assert forall|p: u32| #[trigger] cumulative@.contains_key(p) implies cumulative@[p] as nat == tree::amount(start, p)
            + if ds@.take(i + 1).contains(p) {
            tree::amount(deltas@, p)
        } else {
            0
        } by {
            lemma_take_one_more(ds@, i as int, p);
        }
        assert forall|p: u32| #[trigger] cumulative@.contains_key(p) <==> start.contains_key(p) || (
            ds@.take(i + 1).contains(p) && tree::amount(deltas@, p) > 0) by {
            lemma_take_one_more(ds@, i as int, p);
        }
        i = i + 1;
    }
    assert(ds@.take(ds@.len() as int) =~= ds@);
    // Drop entries for processes that no longer exist; they are not actionable.
    let ghost added = cumulative@;
    let ks = keys_of(cumulative);
    let mut j: usize = 0;
    while j < ks.len()
        invariant
            0 <= j <= ks@.len(),
            ks@.no_duplicates(),
            forall|p: u32| ks@.contains(p) <==> added.contains_key(p),
            forall|p: u32| #[trigger] cumulative@.contains_key(p) <==> added.contains_key(p) && (
                !ks@.take(j as int).contains(p) || cur@.contains_key(p)),
            forall|p: u32| #[trigger] cumulative@.contains_key(p) ==> cumulative@[p] == added[p],
        decreases ks@.len() - j,
    {
        let pid = ks[j];
        assert(ks@.contains(pid));
        if !cur.contains_key(&pid) {
            cumulative.remove(&pid);
        }
        assert forall|p: u32| #[trigger] cumulative@.contains_key(p) <==> added.contains_key(p) && (
            !ks@.take(j + 1).contains(p) || cur@.contains_key(p)) by {
            lemma_take_one_more(ks@, j as int, p);
        }
        j = j + 1;
    }
    assert(ks@.take(ks@.len() as int) =~= ks@);
    assert forall|p: u32| #[trigger] cumulative@.contains_key(p) <==> cumulative_after(start, deltas@, cur@, p) is Some by {
        if deltas@.contains_key(p) {
            assert(ds@.contains(p));
        }
    }
    assert forall|p: u32| #[trigger] cumulative@.contains_key(p) implies cumulative@[p] as nat
        == cumulative_after(start, deltas@, cur@, p)->0 by {
        if deltas@.contains_key(p) {
            assert(ds@.contains(p));
        }
    }
}

/// Law: across a frame, a process that is still there keeps its session
/// total and gains exactly what it used; a process that is gone is dropped;
/// and a new process appears only once it has used CPU.
pub proof fn lemma_cumulative_only_grows(
    old_cum: Map<u32, u64>,
    deltas: Map<u32, u64>,
    cur: Map<u32, Sample>,
    p: u32,
)
    ensures
        cumulative_after(old_cum, deltas, cur, p) matches Some(v) ==> v == tree::amount(old_cum, p)
            + tree::amount(deltas, p) && v >= tree::amount(old_cum, p),
        !cur.contains_key(p) ==> cumulative_after(old_cum, deltas, cur, p) is None,
        cur.contains_key(p) && old_cum.contains_key(p) ==> cumulative_after(old_cum, deltas, cur, p) is Some,
        cur.contains_key(p) && !old_cum.contains_key(p) ==> (cumulative_after(old_cum, deltas, cur, p) is Some
            <==> tree::amount(deltas, p) > 0),
{
}


// ---------------------------------------------------------------------------
// Browser subtrees folded into their main process
// ---------------------------------------------------------------------------

/// `c` lies strictly below `p`.
pub open spec fn strictly_below(children: Map<u32, Vec<u32>>, p: u32, c: u32) -> bool {
    exists|k: u32| tree::child_of(children, p, k) && #[trigger] tree::reaches(children, k, c)
}

fn mark_below(
    owner: u32,
    p: u32,
    children: &HashMap<u32, Vec<u32>>,
    out: &mut HashMap<u32, u32>,
    Ghost(rank): Ghost<spec_fn(u32) -> nat>,
)
    requires
        tree::rank_fits(children@, p, rank),
    ensures
        forall|c: u32| #[trigger] final(out)@.contains_key(c) <==> old(out)@.contains_key(c)
            || strictly_below(children@, p, c),
        forall|c: u32| #[trigger] final(out)@.contains_key(c) ==> final(out)@[c] == if strictly_below(children@, p, c) {
            owner
        } else {
            old(out)@[c]
        },
    decreases rank(p),
{
    let ghost start = out@;
    let empty: Vec<u32> = Vec::new();
    let ks: &Vec<u32> = match children.get(&p) {
        Some(k) => k,
        None => &empty,
    };
    assert(ks@ == tree::kids(children@, p));
    let mut j: usize = 0;
    while j < ks.len()
        invariant
            0 <= j <= ks@.len(),
            ks@ == tree::kids(children@, p),
            tree::rank_fits(children@, p, rank),
            forall|c: u32| #[trigger] out@.contains_key(c) <==> start.contains_key(c) || exists|i: int|
                0 <= i < j && #[trigger] tree::reaches(children@, ks@[i], c),
            forall|c: u32| #[trigger] out@.contains_key(c) ==> out@[c] == if exists|i: int|
                0 <= i < j && #[trigger] tree::reaches(children@, ks@[i], c) {
                owner
            } else {
                start[c]
            },
        decreases ks@.len() - j,
    {
        let k = ks[j];
        assert(tree::child_of(children@, p, k));
        proof {
            tree::lemma_rank_fits_child(children@, p, k, rank);
            tree::lemma_reaches_self(children@, k);
        }
        let ghost before = out@;
        out.insert(k, owner);
        let ghost mid = out@;
        mark_below(owner, k, children, out, Ghost(rank));
        assert forall|c: u32| strictly_below(children@, k, c) implies #[trigger] tree::reaches(children@, k, c) by {
            let m = choose|m: u32| tree::child_of(children@, k, m) && #[trigger] tree::reaches(children@, m, c);
            tree::lemma_reaches_through_child(children@, k, m, c);
        }
        assert forall|c: u32| #[trigger] tree::reaches(children@, k, c) && c != k implies strictly_below(children@, k, c) by {
            let path = choose|path: Seq<u32>| #[trigger] tree::is_path(children@, path) && path[0] == k && path.last() == c;
            assert(path.len() > 1);
            let z: int = 0;
            assert(tree::child_of(children@, path[z], path[z + 1]));
            let rest = path.drop_first();
            assert forall|i: int| 0 <= i < rest.len() - 1 implies #[trigger] tree::child_of(children@, rest[i], rest[i + 1]) by {
                let q = i + 1;
                assert(tree::child_of(children@, path[q], path[q + 1]));
                assert(rest[i] == path[q]);
                assert(rest[i + 1] == path[q + 1]);
            }
            assert(tree::is_path(children@, rest));
            assert(rest[0] == path[1]);
            assert(rest.last() == c);
            assert(tree::reaches(children@, path[1], c));
        }
        assert forall|c: u32| #[trigger] out@.contains_key(c) <==> start.contains_key(c) || exists|i: int|
            0 <= i < j + 1 && #[trigger] tree::reaches(children@, ks@[i], c) by {
            if tree::reaches(children@, k, c) {
                assert(ks@[j as int] == k);
            }
            if exists|i: int| 0 <= i < j + 1 && #[trigger] tree::reaches(children@, ks@[i], c) {
                let i = choose|i: int| 0 <= i < j + 1 && #[trigger] tree::reaches(children@, ks@[i], c);
                if i == j {
                    assert(tree::reaches(children@, k, c));
                }
            }
        }
        assert forall|c: u32| #[trigger] out@.contains_key(c) implies out@[c] == if exists|i: int|
            0 <= i < j + 1 && #[trigger] tree::reaches(children@, ks@[i], c) {
            owner
        } else {
            start[c]
        } by {
            if tree::reaches(children@, k, c) {
                assert(ks@[j as int] == k);
            }
            if exists|i: int| 0 <= i < j + 1 && #[trigger] tree::reaches(children@, ks@[i], c) {
                let i = choose|i: int| 0 <= i < j + 1 && #[trigger] tree::reaches(children@, ks@[i], c);
                if i == j {
                    assert(tree::reaches(children@, k, c));
                }
            }
        }
        j = j + 1;
    }
    assert forall|c: u32| strictly_below(children@, p, c) <==> exists|i: int|
        0 <= i < ks@.len() && #[trigger] tree::reaches(children@, ks@[i], c) by {
        if strictly_below(children@, p, c) {
            let m = choose|m: u32| tree::child_of(children@, p, m) && #[trigger] tree::reaches(children@, m, c);
            let i = choose|i: int| 0 <= i < ks@.len() && ks@[i] == m;
            assert(tree::reaches(children@, ks@[i], c));
        }
        if exists|i: int| 0 <= i < ks@.len() && #[trigger] tree::reaches(children@, ks@[i], c) {
            let i = choose|i: int| 0 <= i < ks@.len() && #[trigger] tree::reaches(children@, ks@[i], c);
            assert(tree::child_of(children@, p, ks@[i]));
        }
    }
}

/// `c` is reached from the child `k` of `p` exactly when it lies strictly below `k` or is `k`.
proof fn lemma_reaches_split(children: Map<u32, Vec<u32>>, k: u32, c: u32)
    ensures
        tree::reaches(children, k, c) <==> c == k || strictly_below(children, k, c),
{
    tree::lemma_reaches_self(children, k);
    if strictly_below(children, k, c) {
        let m = choose|m: u32| tree::child_of(children, k, m) && #[trigger] tree::reaches(children, m, c);
        tree::lemma_reaches_through_child(children, k, m, c);
    }
    if tree::reaches(children, k, c) && c != k {
        let path = choose|path: Seq<u32>| #[trigger] tree::is_path(children, path) && path[0] == k && path.last() == c;
        assert(path.len() > 1);
        let z: int = 0;
        assert(tree::child_of(children, path[z], path[z + 1]));
        let rest = path.drop_first();
        assert forall|i: int| 0 <= i < rest.len() - 1 implies #[trigger] tree::child_of(children, rest[i], rest[i + 1]) by {
            let q = i + 1;
            assert(tree::child_of(children, path[q], path[q + 1]));
            assert(rest[i] == path[q]);
            assert(rest[i + 1] == path[q + 1]);
        }
        assert(tree::is_path(children, rest));
        assert(rest[0] == path[1]);
        assert(rest.last() == c);
        assert(tree::reaches(children, path[1], c));
    }
}

/// Some of the first `j` pids of `ks` reaches `c`.
spec fn reached_from_first(children: Map<u32, Vec<u32>>, ks: Seq<u32>, j: int, c: u32) -> bool {
    exists|i: int| 0 <= i < j && #[trigger] tree::reaches(children, ks[i], c)
}

fn push_below(
    p: u32,
    children: &HashMap<u32, Vec<u32>>,
    out: &mut Vec<u32>,
    Ghost(rank): Ghost<spec_fn(u32) -> nat>,
)
    requires
        tree::rank_fits(children@, p, rank),
    ensures
        forall|c: u32| final(out)@.contains(c) <==> old(out)@.contains(c) || strictly_below(children@, p, c),
        forall|r2: spec_fn(u32) -> nat|
            #[trigger] tree::rank_fits(children@, p, r2) ==> final(out)@.len() + 1 == old(out)@.len()
                + tree::tree_total(children@, |q: u32| 1nat, r2, p),
    decreases rank(p),
{
    let ghost start = out@;
    let ghost one = |q: u32| 1nat;
    let empty: Vec<u32> = Vec::new();
    let ks = tree::kids_of(children, p, &empty);
    assert(ks@.take(0) =~= Seq::<u32>::empty());
    let mut j: usize = 0;
    while j < ks.len()
        invariant
            0 <= j <= ks@.len(),
            ks@ == tree::kids(children@, p),
            tree::rank_fits(children@, p, rank),
            one == (|q: u32| 1nat),
            start.len() <= out@.len(),
            forall|c: u32| #[trigger] out@.contains(c) <==> start.contains(c) || reached_from_first(children@, ks@, j as int, c),
            tree::forest_sums_agree(children@, one, p, j as int, (out@.len() - start.len()) as nat),
        decreases ks@.len() - j,
    {
        let k = ks[j];
        assert(tree::child_of(children@, p, k));
        proof {
            tree::lemma_rank_fits_child(children@, p, k, rank);
        }
        let ghost before = out@;
        out.push(k);
        let ghost mid = out@;
        push_below(k, children, out, Ghost(rank));
        proof {
            tree::lemma_forest_step(children@, one, p, j as int, (before.len() - start.len()) as nat, (out@.len() - before.len()) as nat);
        }
        assert forall|c: u32| #[trigger] out@.contains(c) <==> start.contains(c) || reached_from_first(children@, ks@, j + 1, c) by {
            lemma_reaches_split(children@, k, c);
            lemma_push_contains(before, k, c);
            assert(before.contains(c) <==> start.contains(c) || reached_from_first(children@, ks@, j as int, c));
            if tree::reaches(children@, k, c) {
                assert(ks@[j as int] == k);
            }
            if reached_from_first(children@, ks@, j + 1, c) {
                let i = choose|i: int| 0 <= i < j + 1 && #[trigger] tree::reaches(children@, ks@[i], c);
                if i == j {
                    assert(tree::reaches(children@, k, c));
                } else {
                    assert(reached_from_first(children@, ks@, j as int, c));
                }
            }
            if reached_from_first(children@, ks@, j as int, c) {
                let i = choose|i: int| 0 <= i < j && #[trigger] tree::reaches(children@, ks@[i], c);
                assert(reached_from_first(children@, ks@, j + 1, c));
            }
        }
        j = j + 1;
    }
    proof {
        tree::lemma_tree_from_forest(children@, one, p, (out@.len() - start.len()) as nat);
    }
    assert forall|c: u32| strictly_below(children@, p, c) <==> reached_from_first(children@, ks@, ks@.len() as int, c) by {
        if strictly_below(children@, p, c) {
            let m = choose|m: u32| tree::child_of(children@, p, m) && #[trigger] tree::reaches(children@, m, c);
            let i = choose|i: int| 0 <= i < ks@.len() && ks@[i] == m;
            assert(tree::reaches(children@, ks@[i], c));
        }
        if reached_from_first(children@, ks@, ks@.len() as int, c) {
            let i = choose|i: int| 0 <= i < ks@.len() && #[trigger] tree::reaches(children@, ks@[i], c);
            assert(tree::child_of(children@, p, ks@[i]));
        }
    }
}

/// The processes that lie strictly below `pid`, each as often as it is
/// listed; a browser's line sums the energy of its whole subtree over them.
pub fn descendants(pid: u32, children: &HashMap<u32, Vec<u32>>) -> (r: Vec<u32>)
    requires
        tree::finite_below(children@, pid),
    ensures
        forall|c: u32| r@.contains(c) <==> strictly_below(children@, pid, c),
        r@.len() == tree::descendant_count(children@, pid),
{
    let ghost rank = tree::rank_of(children@, pid);
    let mut out: Vec<u32> = Vec::new();
    push_below(pid, children, &mut out, Ghost(rank));
    out
}

/// A walk down the tree, without its last step, is still a walk.
proof fn lemma_path_drop_last(children: Map<u32, Vec<u32>>, path: Seq<u32>)
    requires
        tree::is_path(children, path),
        path.len() > 1,
    ensures
        tree::is_path(children, path.drop_last()),
{
    let d = path.drop_last();
    assert forall|i: int| 0 <= i < d.len() - 1 implies #[trigger] tree::child_of(children, d[i], d[i + 1]) by {
        assert(tree::child_of(children, path[i], path[i + 1]));
    }
}

/// Where each process has one parent, two processes above a third lie one
/// above the other.
proof fn lemma_above_same_comparable(
    snap: Map<u32, Sample>,
    children: Map<u32, Vec<u32>>,
    pa: Seq<u32>,
    pb: Seq<u32>,
)
    requires
        children_of_snapshot(snap, children),
        tree::is_path(children, pa),
        tree::is_path(children, pb),
        pa.last() == pb.last(),
    ensures
        tree::reaches(children, pa[0], pb[0]) || tree::reaches(children, pb[0], pa[0]),
    decreases pa.len() + pb.len(),
{
    if pa.len() == 1 {
        assert(tree::reaches(children, pb[0], pa[0]));
    } else if pb.len() == 1 {
        assert(tree::reaches(children, pa[0], pb[0]));
    } else {
        let na = pa.len() - 2;
        let nb = pb.len() - 2;
        assert(tree::child_of(children, pa[na], pa[na + 1]));
        assert(tree::child_of(children, pb[nb], pb[nb + 1]));
        assert(pa[na] == pb[nb]);
        lemma_path_drop_last(children, pa);
        lemma_path_drop_last(children, pb);
        lemma_above_same_comparable(snap, children, pa.drop_last(), pb.drop_last());
    }
}

/// Law: in the tree of a snapshot where no walk down goes on forever,
/// siblings lie apart: no process is listed twice under one parent, and no
/// process lies below two different children of one parent.
pub proof fn lemma_snapshot_siblings_apart(snap: Map<u32, Sample>, children: Map<u32, Vec<u32>>)
    requires
        children_of_snapshot(snap, children),
        forall|p: u32| #[trigger] tree::finite_below(children, p),
    ensures
        tree::siblings_apart(children),
{
    assert forall|p: u32| #[trigger] tree::kids(children, p).no_duplicates() by {
        if children.contains_key(p) {
        }
    }
    assert forall|p: u32, c1: u32, c2: u32, x: u32|
        #![trigger tree::child_of(children, p, c1), tree::child_of(children, p, c2), tree::reaches(children, c1, x), tree::reaches(children, c2, x)]
        tree::child_of(children, p, c1) && tree::child_of(children, p, c2) && tree::reaches(children, c1, x)
            && tree::reaches(children, c2, x) implies c1 == c2 by {
        let pa = choose|path: Seq<u32>| #[trigger] tree::is_path(children, path) && path[0] == c1 && path.last() == x;
        let pb = choose|path: Seq<u32>| #[trigger] tree::is_path(children, path) && path[0] == c2 && path.last() == x;
        lemma_above_same_comparable(snap, children, pa, pb);
        if c1 != c2 {
            // One of them lies strictly below the other, so below it lies
            // their common parent too: a walk from `p` back to `p`.
            let (hi, lo) = if tree::reaches(children, c1, c2) { (c1, c2) } else { (c2, c1) };
            assert(tree::reaches(children, hi, lo));
            let path = choose|path: Seq<u32>| #[trigger] tree::is_path(children, path) && path[0] == hi && path.last() == lo;
            assert(path.len() > 1);
            let n = path.len() - 2;
            assert(tree::child_of(children, path[n], path[n + 1]));
            assert(tree::child_of(children, p, lo));
            assert(path[n] == p);
            lemma_path_drop_last(children, path);
            assert(tree::reaches(children, hi, p)) by {
                assert(path.drop_last()[0] == hi);
                assert(path.drop_last().last() == p);
            }
            assert(tree::finite_below(children, p));
            let r = tree::rank_of(children, p);
            assert(tree::child_of(children, p, hi));
            tree::lemma_rank_fits_child(children, p, hi, r);
            tree::lemma_rank_fits_reached(children, hi, p, r);
        }
    }
}

/// Law: in the tree of a snapshot where no walk down goes on forever, the
/// top level of the live tree (what is shown in place of the processes whose
/// parent the snapshot does not hold) shows no process twice.
pub proof fn lemma_top_level_shown_once(
    snap: Map<u32, Sample>,
    deltas: Map<u32, u64>,
    children: Map<u32, Vec<u32>>,
    subtree: Map<u32, u64>,
    roots: Seq<u32>,
)
    requires
        children_of_snapshot(snap, children),
        forall|p: u32| #[trigger] tree::finite_below(children, p),
        roots.no_duplicates(),
        forall|i: int|
            0 <= i < roots.len() ==> snap.contains_key(#[trigger] roots[i]) && !snap.contains_key(
                snap[roots[i]].ppid,
            ),
    ensures
        tree::visible_all(snap, deltas, children, subtree, roots).no_duplicates(),
{
    lemma_snapshot_siblings_apart(snap, children);
    assert forall|i: int| 0 <= i < roots.len() implies tree::finite_below(children, #[trigger] roots[i]) by {
        assert(tree::finite_below(children, roots[i]));
    }
    assert forall|i: int, j: int, x: u32|
        0 <= i < roots.len() && 0 <= j < roots.len() && i != j && #[trigger] tree::reaches(children, roots[i], x)
            implies !#[trigger] tree::reaches(children, roots[j], x) by {
        if tree::reaches(children, roots[j], x) {
            let pa = choose|path: Seq<u32>| #[trigger] tree::is_path(children, path) && path[0] == roots[i] && path.last() == x;
            let pb = choose|path: Seq<u32>| #[trigger] tree::is_path(children, path) && path[0] == roots[j] && path.last() == x;
            lemma_above_same_comparable(snap, children, pa, pb);
            let (hi, lo) = if tree::reaches(children, roots[i], roots[j]) {
                (roots[i], roots[j])
            } else {
                (roots[j], roots[i])
            };
            assert(hi != lo);
            assert(snap.contains_key(hi) && snap.contains_key(lo) && !snap.contains_key(snap[lo].ppid));
            let path = choose|path: Seq<u32>| #[trigger] tree::is_path(children, path) && path[0] == hi && path.last() == lo;
            assert(path.len() > 1);
            let n = path.len() - 2;
            assert(tree::child_of(children, path[n], path[n + 1]));
            assert(snap[lo].ppid == path[n]);
            if n > 0 {
                let k = n - 1;
                assert(tree::child_of(children, path[k], path[k + 1]));
            }
            assert(snap.contains_key(path[n]));
        }
    }
    tree::lemma_shown_once(snap, deltas, children, subtree, roots);
}

/// `c` lies below the main process of a browser in the snapshot.
pub open spec fn folded(snap: Map<u32, Sample>, children: Map<u32, Vec<u32>>, c: u32) -> bool {
    exists|r: u32|
        snap.contains_key(r) && label::collapse_root(snap[r]) && #[trigger] strictly_below(
            children,
            r,
            c,
        )
}

/// Every process that lies below a browser's main process, mapped to such
/// a main process above it; the leaderboard rolls browser helpers up into
/// their main process.
pub fn folded_into(snap: &HashMap<u32, Sample>, children: &HashMap<u32, Vec<u32>>) -> (r: HashMap<
    u32,
    u32,
>)
    requires
        forall|p: u32|
            #[trigger] snap@.contains_key(p) && label::collapse_root(snap@[p]) ==> tree::finite_below(
                children@,
                p,
            ),
    ensures
        forall|c: u32| #[trigger] r@.contains_key(c) <==> folded(snap@, children@, c),
        forall|c: u32|
            #[trigger] r@.contains_key(c) ==> snap@.contains_key(r@[c]) && label::collapse_root(
                snap@[r@[c]],
            ) && strictly_below(children@, r@[c], c),
{
    let pids = keys_of(snap);
    let mut out: HashMap<u32, u32> = HashMap::new();
    let mut i: usize = 0;
    while i < pids.len()
        invariant
            0 <= i <= pids@.len(),
            forall|p: u32| pids@.contains(p) <==> snap@.contains_key(p),
            forall|p: u32|
                #[trigger] snap@.contains_key(p) && label::collapse_root(snap@[p]) ==> tree::finite_below(
                    children@,
                    p,
                ),
            forall|c: u32| #[trigger] out@.contains_key(c) <==> exists|r: u32|
                pids@.take(i as int).contains(r) && label::collapse_root(snap@[r])
                    && #[trigger] strictly_below(children@, r, c),
            forall|c: u32|
                #[trigger] out@.contains_key(c) ==> snap@.contains_key(out@[c]) && label::collapse_root(
                    snap@[out@[c]],
                ) && strictly_below(children@, out@[c], c),
        decreases pids@.len() - i,
    {
        let pid = pids[i];
        assert(pids@.contains(pid));
        let sample = match snap.get(&pid) {
            Some(s) => s,
            None => {
                assert(false);
                return out;
            },
        };
        if label::is_collapse_root(sample) {
            let ghost rank = tree::rank_of(children@, pid);
            mark_below(pid, pid, children, &mut out, Ghost(rank));
        }
        assert forall|c: u32| #[trigger] out@.contains_key(c) <==> exists|r: u32|
            pids@.take(i + 1).contains(r) && label::collapse_root(snap@[r])
                && #[trigger] strictly_below(children@, r, c) by {
            lemma_take_one_more(pids@, i as int, pid);
            if exists|r: u32| pids@.take(i + 1).contains(r) && label::collapse_root(snap@[r])
                && #[trigger] strictly_below(children@, r, c) {
                let r = choose|r: u32| pids@.take(i + 1).contains(r) && label::collapse_root(snap@[r])
                    && #[trigger] strictly_below(children@, r, c);
                lemma_take_one_more(pids@, i as int, r);
            }
        }
        i = i + 1;
    }
    assert(pids@.take(pids@.len() as int) =~= pids@);
    out
}

// ---------------------------------------------------------------------------
// The session leaderboard
// ---------------------------------------------------------------------------

/// The session jiffies and this frame's jiffies shown for a process: its
/// whole subtree's for a browser's main process, its own otherwise.
pub open spec fn board_values(
    snap: Map<u32, Sample>,
    cumulative: Map<u32, u64>,
    deltas: Map<u32, u64>,
    subtree_cum: Map<u32, u64>,
    subtree: Map<u32, u64>,
    p: u32,
) -> (nat, nat) {
    if label::collapse_root(snap[p]) {
        (tree::amount(subtree_cum, p), tree::amount(subtree, p))
    } else {
        (tree::amount(cumulative, p), tree::amount(deltas, p))
    }
}

/// `a` is ranked above `b`: more session jiffies, or as many and a smaller pid.
pub open spec fn ranks_above(a: (u32, u64, u64), b: (u32, u64, u64)) -> bool {
    a.1 > b.1 || (a.1 == b.1 && a.0 < b.0)
}

/// The leaderboard entry of `p`, where it has one: each process that is not
/// folded into a browser and used CPU during the session.
pub open spec fn board_entry(
    snap: Map<u32, Sample>,
    folded_map: Map<u32, u32>,
    cumulative: Map<u32, u64>,
    deltas: Map<u32, u64>,
    subtree_cum: Map<u32, u64>,
    subtree: Map<u32, u64>,
    p: u32,
) -> Option<(u32, u64, u64)> {
    let v = board_values(snap, cumulative, deltas, subtree_cum, subtree, p);
    if snap.contains_key(p) && !folded_map.contains_key(p) && v.0 > 0 {
        Some((p, v.0 as u64, v.1 as u64))
    } else {
        None
    }
}

/// The session leaderboard: one entry per process that is not folded into a
/// browser (a browser's main process with its subtree's totals), without
/// those that never used CPU, busiest first.
pub fn leaderboard(
    snap: &HashMap<u32, Sample>,
    folded_map: &HashMap<u32, u32>,
    cumulative: &HashMap<u32, u64>,
    deltas: &HashMap<u32, u64>,
    subtree_cum: &HashMap<u32, u64>,
    subtree: &HashMap<u32, u64>,
) -> (r: Vec<(u32, u64, u64)>)
    ensures
        forall|i: int, j: int| 0 <= i < j < r@.len() ==> ranks_above(r@[i], r@[j]),
        forall|i: int, j: int|
            0 <= i < j < r@.len() ==> r@[i].1 > r@[j].1 || (r@[i].1 == r@[j].1 && r@[i].0 < r@[j].0),
        forall|e: (u32, u64, u64)|
            r@.contains(e) <==> board_entry(snap@, folded_map@, cumulative@, deltas@, subtree_cum@, subtree@, e.0) == Some(e),
{
    let pids = keys_of(snap);
    let mut board: Vec<(u32, u64, u64)> = Vec::new();
    let mut i: usize = 0;
    while i < pids.len()
        invariant
            0 <= i <= pids@.len(),
            pids@.no_duplicates(),
            forall|p: u32| pids@.contains(p) <==> snap@.contains_key(p),
            forall|a: int, b: int| 0 <= a < b < board@.len() ==> ranks_above(board@[a], board@[b]),
            forall|e: (u32, u64, u64)|
                board@.contains(e) <==> pids@.take(i as int).contains(e.0) && board_entry(snap@, folded_map@, cumulative@, deltas@, subtree_cum@, subtree@, e.0) == Some(e),
        decreases pids@.len() - i,
    {
        let pid = pids[i];
        assert(pids@.contains(pid));
        proof {
            lemma_not_in_prefix(pids@, i as int);
        }
        let sample = match snap.get(&pid) {
            Some(s) => s,
            None => {
                assert(false);
                return board;
            },
        };
        let ghost before = board@;
        let ghost entry = board_entry(snap@, folded_map@, cumulative@, deltas@, subtree_cum@, subtree@, pid);
        assert forall|x: (u32, u64, u64)| before.contains(x) implies x.0 != pid by {
            assert(pids@.take(i as int).contains(x.0));
        }
        if folded_map.contains_key(&pid) {
            assert(board_entry(snap@, folded_map@, cumulative@, deltas@, subtree_cum@, subtree@, pid) is None);
        } else {
            let (cum, now) = if label::is_collapse_root(sample) {
                (
                    match subtree_cum.get(&pid) {
                        Some(x) => *x,
                        None => 0,
                    },
                    match subtree.get(&pid) {
                        Some(x) => *x,
                        None => 0,
                    },
                )
            } else {
                (
                    match cumulative.get(&pid) {
                        Some(x) => *x,
                        None => 0,
                    },
                    match deltas.get(&pid) {
                        Some(x) => *x,
                        None => 0,
                    },
                )
            };
            if cum == 0 {
                assert(board_entry(snap@, folded_map@, cumulative@, deltas@, subtree_cum@, subtree@, pid) is None);
            } else {
                let e = (pid, cum, now);
                assert(board_entry(snap@, folded_map@, cumulative@, deltas@, subtree_cum@, subtree@, pid) == Some(e));
                let mut p: usize = 0;
                while p < board.len()
                    invariant
                        0 <= p <= board@.len(),
                        board@ == before,
                        e.0 == pid,
                        e.1 == cum,
                        forall|a: int| 0 <= a < p ==> ranks_above(#[trigger] board@[a], e),
                    ensures
                        0 <= p <= board@.len(),
                        forall|a: int| 0 <= a < p ==> ranks_above(#[trigger] board@[a], e),
                        p == board@.len() || !ranks_above(board@[p as int], e),
                    decreases board@.len() - p,
                {
                    let bp = board[p].0;
                    let bc = board[p].1;
                    if !(bc > cum || (bc == cum && bp < pid)) {
                        break;
                    }
                    p = p + 1;
                }
                assert(!before.contains(e) && forall|k: int| 0 <= k < before.len() ==> before[k].0 != pid) by {
                    assert forall|k: int| 0 <= k < before.len() implies before[k].0 != pid by {
                        assert(before.contains(before[k]));
                    }
                }
                board.insert(p, e);
                assert forall|a: int, b: int| 0 <= a < b < board@.len() implies ranks_above(board@[a], board@[b]) by {
                    if b < p {
                    } else if b == p {
                    } else if a < p {
                        assert(board@[b] == before[b - 1]);
                        assert(ranks_above(before[a], before[b - 1]) || a == b - 1);
                        if p < before.len() {
                            assert(ranks_above(e, before[p as int]));
                        }
                    } else if a == p {
                        assert(board@[b] == before[b - 1]);
                        assert(ranks_above(e, before[p as int]));
                        if b - 1 > p {
                            assert(ranks_above(before[p as int], before[b - 1]));
                        }
                    } else {
                        assert(board@[a] == before[a - 1]);
                        assert(board@[b] == before[b - 1]);
                    }
                }
                assert forall|x: (u32, u64, u64)| board@.contains(x) <==> before.contains(x) || x == e by {
                    if board@.contains(x) {
                        let k = choose|k: int| 0 <= k < board@.len() && board@[k] == x;
                        if k < p {
                            assert(before[k] == x);
                        } else if k > p {
                            assert(before[k - 1] == x);
                        }
                    }
                    if before.contains(x) {
                        let k = choose|k: int| 0 <= k < before.len() && before[k] == x;
                        if k < p {
                            assert(board@[k] == x);
                        } else {
                            assert(board@[k + 1] == x);
                        }
                    }
                    if x == e {
                        assert(board@[p as int] == x);
                    }
                }
            }
        }
        assert(forall|x: (u32, u64, u64)| board@.contains(x) <==> before.contains(x) || entry == Some(x));
        assert forall|x: (u32, u64, u64)| board@.contains(x) <==> pids@.take(i + 1).contains(x.0) && board_entry(snap@, folded_map@, cumulative@, deltas@, subtree_cum@, subtree@, x.0) == Some(x) by {
            lemma_take_one_more(pids@, i as int, x.0);
            if x.0 == pid {
                assert(!before.contains(x));
                assert(pids@[i as int] == pid);
            } else {
                assert(entry != Some(x));
                assert(before.contains(x) <==> pids@.take(i as int).contains(x.0) && board_entry(snap@, folded_map@, cumulative@, deltas@, subtree_cum@, subtree@, x.0) == Some(x));
            }
        }
        i = i + 1;
    }
    assert(pids@.take(pids@.len() as int) =~= pids@);
    assert forall|x: (u32, u64, u64)| board@.contains(x) <==> board_entry(snap@, folded_map@, cumulative@, deltas@, subtree_cum@, subtree@, x.0) == Some(x) by {
        if board_entry(snap@, folded_map@, cumulative@, deltas@, subtree_cum@, subtree@, x.0) == Some(x) {
            assert(snap@.contains_key(x.0));
            assert(pids@.contains(x.0));
        }
    }
    assert forall|i: int, j: int| 0 <= i < j < board@.len() implies board@[i].1 > board@[j].1 || (
        board@[i].1 == board@[j].1 && board@[i].0 < board@[j].0) by {
        assert(ranks_above(board@[i], board@[j]));
    }
    board
}


/// Law: the leaderboard's order. An entry ranks above another when it has
/// more session jiffies, or as many and a smaller pid; this frame's jiffies
/// play no part, and no entry ranks above itself.
pub proof fn lemma_board_order(a: (u32, u64, u64), b: (u32, u64, u64), x: u64)
    ensures
        ranks_above(a, b) <==> a.1 > b.1 || (a.1 == b.1 && a.0 < b.0),
        ranks_above((a.0, a.1, x), b) == ranks_above(a, b),
        ranks_above(a, (b.0, b.1, x)) == ranks_above(a, b),
        !ranks_above(a, a),
{
}

/// Law: the leaderboard remembers. A process that is still there, is not
/// folded into a browser and has used CPU during the session keeps its
/// entry, with its session total, even in a frame where it used none.
pub proof fn lemma_idle_process_keeps_its_entry(
    snap: Map<u32, Sample>,
    folded_map: Map<u32, u32>,
    cumulative: Map<u32, u64>,
    deltas: Map<u32, u64>,
    subtree_cum: Map<u32, u64>,
    subtree: Map<u32, u64>,
    p: u32,
)
    requires
        snap.contains_key(p),
        !folded_map.contains_key(p),
        !label::collapse_root(snap[p]),
        tree::amount(cumulative, p) > 0,
        tree::amount(deltas, p) == 0,
    ensures
        board_entry(snap, folded_map, cumulative, deltas, subtree_cum, subtree, p) == Some(
            (p, cumulative[p], 0u64),
        ),
{
}

// ---------------------------------------------------------------------------
// Frame arithmetic and layout
// ---------------------------------------------------------------------------

/// The system jiffies that passed between two readings of `/proc/stat`,
/// at least 1 (`cur.saturating_sub(prev).max(1)`).
pub fn total_delta(prev: u64, cur: u64) -> (r: u64)
    ensures
        r == if cur > prev {
            (cur - prev) as u64
        } else {
            1
        },
{
    let d = cur.saturating_sub(prev);
    if d < 1 {
        1
    } else {
        d
    }
}

/// The rows left for the live tree under a rows budget: what the header
/// and the leaderboard (at most `leaderboard_n` entries of `board_len`) do
/// not take, and at least 5.
pub fn tree_budget(max_rows: usize, leaderboard_n: usize, board_len: usize) -> (r: usize)
    requires
        leaderboard_n <= 1000,
    ensures
        r == if max_rows >= 6 + if leaderboard_n < board_len { leaderboard_n } else { board_len } + 5 {
            (max_rows - (6 + if leaderboard_n < board_len { leaderboard_n } else { board_len })) as usize
        } else {
            5
        },
{
    let shown = if leaderboard_n < board_len {
        leaderboard_n
    } else {
        board_len
    };
    let header_lines = 6 + shown;
    let left = max_rows.saturating_sub(header_lines);
    if left < 5 {
        5
    } else {
        left
    }
}

/// How many characters of a label fit after a line prefix of
/// `prefix_chars` characters on a terminal `cols` wide (at least 10).
pub fn label_budget(cols: usize, prefix_chars: usize) -> (r: usize)
    ensures
        r == if cols >= prefix_chars + 10 {
            (cols - prefix_chars) as usize
        } else {
            10
        },
{
    let left = cols.saturating_sub(prefix_chars);
    if left < 10 {
        10
    } else {
        left
    }
}

/// The first `budget` characters of `label` (all of it if it is shorter).
pub fn truncate_label(label: &str, budget: usize) -> (r: String)
    ensures
        r@ == if label@.len() <= budget {
            label@
        } else {
            label@.take(budget as int)
        },
{
    let v = crate::text::chars_of(label);
    let n = if v.len() <= budget {
        v.len()
    } else {
        budget
    };
    let r = crate::text::string_of(&v, 0, n);
    assert(v@.subrange(0, v@.len() as int) =~= v@);
    r
}

} // verus!
