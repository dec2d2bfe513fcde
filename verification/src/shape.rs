//! Whether the process tree of a frame can be walked: the parent pids that
//! the snapshot records hold no cycle, and the totals over each subtree fit
//! the integer types that hold them.
//!
//! `/proc` is read one process at a time, so a snapshot need not be a
//! consistent picture; these are the tests that the monitor makes before it
//! walks the tree.
use vstd::prelude::*;
use std::collections::HashMap;
use crate::procfs::Sample;
use crate::frame;
use crate::label;
use crate::tree;

verus! {

broadcast use vstd::std_specs::hash::group_hash_axioms;

// ---------------------------------------------------------------------------
// No cycle
// ---------------------------------------------------------------------------

/// `ranks` decreases strictly from each parent to each of its children.
pub open spec fn ranked(children: Map<u32, Vec<u32>>, ranks: Map<u32, u64>) -> bool {
    forall|p: u32, c: u32| #[trigger]
        tree::child_of(children, p, c) ==> tree::amount(ranks, c) < tree::amount(ranks, p)
}

/// A ranking of the whole tree bounds every walk down it.
proof fn lemma_ranked_finite(children: Map<u32, Vec<u32>>, ranks: Map<u32, u64>, root: u32)
    requires
        ranked(children, ranks),
    ensures
        tree::finite_below(children, root),
{
    let rank = |p: u32| tree::amount(ranks, p);
    assert(tree::rank_fits(children, root, rank));
}

/// The rank that `ranks` gives to `p` (0 where it gives none).
fn rank_in(ranks: &HashMap<u32, u64>, p: u32) -> (r: u64)
    ensures
        r == tree::amount(ranks@, p),
{
    match ranks.get(&p) {
        Some(x) => *x,
        None => 0,
    }
}

/// Some walk down from `q` passes `k` children.
pub open spec fn deep(children: Map<u32, Vec<u32>>, q: u32, k: nat) -> bool {
    exists|path: Seq<u32>| #[trigger] tree::is_path(children, path) && path[0] == q && path.len() == k + 1
}

/// A walk of no steps stays at `q`.
proof fn lemma_deep_zero(children: Map<u32, Vec<u32>>, q: u32)
    ensures
        deep(children, q, 0),
{
    let path = seq![q];
    assert(tree::is_path(children, path));
}

/// A walk down from a child, with one step from its parent before it.
proof fn lemma_deep_prepend(children: Map<u32, Vec<u32>>, p: u32, c: u32, k: nat)
    requires
        deep(children, c, k),
        tree::child_of(children, p, c),
    ensures
        deep(children, p, k + 1),
{
    let path = choose|path: Seq<u32>| #[trigger] tree::is_path(children, path) && path[0] == c && path.len() == k + 1;
    let longer = seq![p] + path;
    assert forall|i: int| 0 <= i < longer.len() - 1 implies #[trigger] tree::child_of(
        children,
        longer[i],
        longer[i + 1],
    ) by {
        if i == 0 {
            assert(longer[1] == c);
        } else {
            let t = i - 1;
            assert(tree::child_of(children, path[t], path[t + 1]));
            assert(longer[i] == path[t]);
            assert(longer[i + 1] == path[t + 1]);
        }
    }
    assert(tree::is_path(children, longer));
}

/// The start of a walk reaches each process on it.
proof fn lemma_path_reaches(children: Map<u32, Vec<u32>>, path: Seq<u32>, t: int)
    requires
        tree::is_path(children, path),
        0 <= t < path.len(),
    ensures
        tree::reaches(children, path[0], path[t]),
{
    let pre = path.take(t + 1);
    assert forall|i: int| 0 <= i < pre.len() - 1 implies #[trigger] tree::child_of(
        children,
        pre[i],
        pre[i + 1],
    ) by {
        assert(tree::child_of(children, path[i], path[i + 1]));
    }
    assert(tree::is_path(children, pre));
    assert(pre.last() == path[t]);
}

/// A rank that fits below the start of a walk decreases along it.
proof fn lemma_path_descends(
    children: Map<u32, Vec<u32>>,
    path: Seq<u32>,
    rank: spec_fn(u32) -> nat,
    i: int,
    j: int,
)
    requires
        tree::is_path(children, path),
        tree::rank_fits(children, path[0], rank),
        0 <= i < j < path.len(),
    ensures
        rank(path[j]) < rank(path[i]),
    decreases j - i,
{
    let t = j - 1;
    assert(tree::child_of(children, path[t], path[t + 1]));
    lemma_path_reaches(children, path, t);
    if t > i {
        lemma_path_descends(children, path, rank, i, t);
    }
}

/// Where no walk down the tree goes on forever, a walk passes each parent
/// at most once, so it passes at most as many children as there are parents.
proof fn lemma_deep_bounded(children: Map<u32, Vec<u32>>, parents: Seq<u32>, q: u32, k: nat)
    requires
        forall|p: u32| #[trigger] tree::finite_below(children, p),
        deep(children, q, k),
        parents.no_duplicates(),
        forall|p: u32| parents.contains(p) <==> children.contains_key(p),
    ensures
        k <= parents.len(),
{
    let path = choose|path: Seq<u32>| #[trigger] tree::is_path(children, path) && path[0] == q && path.len() == k + 1;
    assert(tree::finite_below(children, q));
    let rank = tree::rank_of(children, q);
    let s = path.take(k as int);
    assert forall|a: int, b: int| 0 <= a < b < s.len() implies s[a] != s[b] by {
        lemma_path_descends(children, path, rank, a, b);
    }
    assert forall|x: u32| s.to_set().contains(x) implies parents.to_set().contains(x) by {
        let t = choose|t: int| 0 <= t < s.len() && s[t] == x;
        assert(tree::child_of(children, path[t], path[t + 1]));
        assert(children.contains_key(x));
        assert(parents.contains(x));
    }
    s.unique_seq_to_set();
    parents.unique_seq_to_set();
    vstd::seq_lib::seq_to_set_is_finite(parents);
    vstd::set_lib::lemma_len_subset(s.to_set(), parents.to_set());
}

/// How far the ranks of `ps` are below `n`, added up; each raise lowers it.
spec fn slack(ranks: Map<u32, u64>, ps: Seq<u32>, n: nat) -> nat
    decreases ps.len(),
{
    if ps.len() == 0 {
        0
    } else {
        slack(ranks, ps.drop_last(), n) + (n - tree::amount(ranks, ps.last())) as nat
    }
}

/// Raising the rank of a pid that `ps` does not hold leaves its slack as it is.
proof fn lemma_slack_same(ranks: Map<u32, u64>, ps: Seq<u32>, n: nat, p: u32, v: u64)
    requires
        !ps.contains(p),
    ensures
        slack(ranks.insert(p, v), ps, n) == slack(ranks, ps, n),
    decreases ps.len(),
{
    if ps.len() > 0 {
        assert(ps.drop_last().contains(p) ==> ps.contains(p));
        lemma_slack_same(ranks, ps.drop_last(), n, p, v);
        assert(ps.last() != p);
    }
}

/// Raising the rank of one pid of `ps`, up to `n`, lowers its slack.
proof fn lemma_slack_drops(ranks: Map<u32, u64>, ps: Seq<u32>, n: nat, p: u32, v: u64)
    requires
        ps.no_duplicates(),
        ps.contains(p),
        tree::amount(ranks, p) < v <= n,
    ensures
        slack(ranks.insert(p, v), ps, n) < slack(ranks, ps, n),
    decreases ps.len(),
{
    let rest = ps.drop_last();
    assert(rest.no_duplicates());
    if ps.last() == p {
        assert(!rest.contains(p));
        lemma_slack_same(ranks, rest, n, p, v);
    } else {
        let i = choose|i: int| 0 <= i < ps.len() && ps[i] == p;
        assert(rest.contains(p)) by {
            assert(i < ps.len() - 1);
            assert(rest[i] == p);
        }
        lemma_slack_drops(ranks, rest, n, p, v);
    }
}

/// Looks for a ranking of the tree: each parent is raised above its
/// children, pass after pass, until a pass changes nothing. A rank beyond
/// the number of parents shows a walk that passes some parent twice, a
/// cycle; so a tree in which no walk down goes on forever gets its ranking.
fn find_ranks(children: &HashMap<u32, Vec<u32>>) -> (r: Option<HashMap<u32, u64>>)
    ensures
        r matches Some(m) ==> ranked(children@, m@),
        (forall|p: u32| #[trigger] tree::finite_below(children@, p)) ==> r is Some,
{
    let parents = frame::keys_of(children);
    let n: u64 = parents.len() as u64;
    let mut ranks: HashMap<u32, u64> = HashMap::new();
    let mut changed = true;
    assert forall|q: u32| #[trigger] deep(children@, q, tree::amount(ranks@, q)) by {
        lemma_deep_zero(children@, q);
    }
    while changed
        invariant
            parents@.no_duplicates(),
            forall|p: u32| parents@.contains(p) <==> children@.contains_key(p),
            n == parents@.len(),
            forall|q: u32| #[trigger] ranks@.contains_key(q) ==> parents@.contains(q) && ranks@[q] <= n,
            forall|q: u32| #[trigger] deep(children@, q, tree::amount(ranks@, q)),
            !changed ==> ranked(children@, ranks@),
        decreases slack(ranks@, parents@, n as nat) + if changed {
            1nat
        } else {
            0nat
        },
    {
        let ghost start = ranks@;
        changed = false;
        let mut i: usize = 0;
        while i < parents.len()
            invariant
                0 <= i <= parents@.len(),
                parents@.no_duplicates(),
                forall|p: u32| parents@.contains(p) <==> children@.contains_key(p),
                n == parents@.len(),
                forall|q: u32| #[trigger] ranks@.contains_key(q) ==> parents@.contains(q) && ranks@[q] <= n,
                forall|q: u32| #[trigger] deep(children@, q, tree::amount(ranks@, q)),
                slack(ranks@, parents@, n as nat) <= slack(start, parents@, n as nat),
                changed ==> slack(ranks@, parents@, n as nat) < slack(start, parents@, n as nat),
                !changed ==> ranks@ == start,
                !changed ==> forall|k: int, c: u32|
                    0 <= k < i && #[trigger] tree::child_of(children@, parents@[k], c) ==> tree::amount(
                        ranks@,
                        c,
                    ) < tree::amount(ranks@, parents@[k]),
            decreases parents@.len() - i,
        {
            let p = parents[i];
            assert(parents@.contains(p));
            let empty: Vec<u32> = Vec::new();
            let ks = tree::kids_of(children, p, &empty);
            let mut j: usize = 0;
            while j < ks.len()
                invariant
                    0 <= i < parents@.len(),
                    p == parents@[i as int],
                    parents@.contains(p),
                    ks@ == tree::kids(children@, p),
                    0 <= j <= ks@.len(),
                    parents@.no_duplicates(),
                    forall|p2: u32| parents@.contains(p2) <==> children@.contains_key(p2),
                    n == parents@.len(),
                    forall|q: u32| #[trigger] ranks@.contains_key(q) ==> parents@.contains(q) && ranks@[q] <= n,
                    forall|q: u32| #[trigger] deep(children@, q, tree::amount(ranks@, q)),
                    slack(ranks@, parents@, n as nat) <= slack(start, parents@, n as nat),
                    changed ==> slack(ranks@, parents@, n as nat) < slack(start, parents@, n as nat),
                    !changed ==> ranks@ == start,
                    !changed ==> forall|k: int, c: u32|
                        0 <= k < i && #[trigger] tree::child_of(children@, parents@[k], c) ==> tree::amount(
                            ranks@,
                            c,
                        ) < tree::amount(ranks@, parents@[k]),
                    !changed ==> forall|jj: int| 0 <= jj < j ==> tree::amount(ranks@, #[trigger] ks@[jj]) < tree::amount(ranks@, p),
                decreases ks@.len() - j,
            {
                let c = ks[j];
                assert(tree::child_of(children@, p, c));
                let rc = rank_in(&ranks, c);
                let rp = rank_in(&ranks, p);
                if rp <= rc {
                    assert(deep(children@, c, tree::amount(ranks@, c)));
                    proof {
                        lemma_deep_prepend(children@, p, c, rc as nat);
                    }
                    if rc >= n {
                        proof {
                            if forall|q: u32| #[trigger] tree::finite_below(children@, q) {
                                lemma_deep_bounded(children@, parents@, p, (rc + 1) as nat);
                            }
                        }
                        return None;
                    }
                    let ghost before = ranks@;
                    proof {
                        lemma_slack_drops(before, parents@, n as nat, p, (rc + 1) as u64);
                    }
                    ranks.insert(p, rc + 1);
                    assert forall|q: u32| #[trigger] deep(children@, q, tree::amount(ranks@, q)) by {
                        if q != p {
                            assert(tree::amount(ranks@, q) == tree::amount(before, q));
                            assert(deep(children@, q, tree::amount(before, q)));
                        }
                    }
                    changed = true;
                }
                j = j + 1;
            }
            assert(!changed ==> forall|k: int, c: u32|
                0 <= k < i + 1 && #[trigger] tree::child_of(children@, parents@[k], c) ==> tree::amount(
                    ranks@,
                    c,
                ) < tree::amount(ranks@, parents@[k])) by {
                if !changed {
                    assert forall|k: int, c: u32|
                        0 <= k < i + 1 && #[trigger] tree::child_of(children@, parents@[k], c) implies tree::amount(
                            ranks@,
                            c,
                        ) < tree::amount(ranks@, parents@[k]) by {
                        if k == i {
                            let jj = choose|jj: int| 0 <= jj < ks@.len() && ks@[jj] == c;
                            assert(tree::amount(ranks@, ks@[jj]) < tree::amount(ranks@, p));
                        }
                    }
                }
            }
            i = i + 1;
        }
        proof {
            if !changed {
                assert forall|p: u32, c: u32| #[trigger] tree::child_of(children@, p, c) implies tree::amount(
                    ranks@,
                    c,
                ) < tree::amount(ranks@, p) by {
                    assert(children@.contains_key(p));
                    assert(parents@.contains(p));
                    let k = choose|k: int| 0 <= k < parents@.len() && parents@[k] == p;
                    assert(tree::child_of(children@, parents@[k], c));
                }
            }
        }
    }
    Some(ranks)
}

/// With a ranking of the snapshot's tree, the walk up the parent pids from
/// `pid` ends: the rank grows at each step up, and is bounded.
proof fn lemma_ancestry_from(
    snap: Map<u32, Sample>,
    children: Map<u32, Vec<u32>>,
    ranks: Map<u32, u64>,
    pid: u32,
    k: nat,
)
    requires
        frame::children_of_snapshot(snap, children),
        ranked(children, ranks),
        forall|j: nat| j < k ==> #[trigger] label::ancestor(snap, pid, j) != 0 && snap.contains_key(
            label::ancestor(snap, pid, j),
        ),
        k > 0 ==> tree::amount(ranks, label::ancestor(snap, pid, (k - 1) as nat)) >= k - 1,
        k <= u64::MAX + 1,
    ensures
        label::ancestry_ends(snap, pid),
    decreases u64::MAX + 1 - k,
{
    let a = label::ancestor(snap, pid, k);
    if a == 0 || !snap.contains_key(a) {
        assert(label::walk_stops_at(snap, pid, k));
    } else {
        if k > 0 {
            let prev = label::ancestor(snap, pid, (k - 1) as nat);
            assert(snap.contains_key(prev));
            assert(a == snap[prev].ppid);
            assert(tree::child_of(children, a, prev));
        }
        assert(tree::amount(ranks, a) >= k);
        lemma_ancestry_from(snap, children, ranks, pid, k + 1);
    }
}

// ---------------------------------------------------------------------------
// Totals that fit
// ---------------------------------------------------------------------------

/// The weight that a total over a subtree gives each process: one when
/// counting processes, else what `m` records for it.
pub open spec fn weight_of(m: Map<u32, u64>, count: bool) -> spec_fn(u32) -> nat {
    if count {
        |q: u32| 1nat
    } else {
        |q: u32| tree::amount(m, q)
    }
}

/// The total weight of `pid` and its descendants, where it is at most `limit`.
fn capped_total(
    pid: u32,
    children: &HashMap<u32, Vec<u32>>,
    m: &HashMap<u32, u64>,
    count: bool,
    limit: u64,
    Ghost(rank): Ghost<spec_fn(u32) -> nat>,
) -> (r: Option<u64>)
    requires
        tree::rank_fits(children@, pid, rank),
    ensures
        forall|r2: spec_fn(u32) -> nat|
            #[trigger] tree::rank_fits(children@, pid, r2) ==> {
                let t = tree::tree_total(children@, weight_of(m@, count), r2, pid);
                &&& r is Some ==> r->0 == t && t <= limit
                &&& r is None ==> t > limit
            },
    decreases rank(pid),
{
    let ghost w = weight_of(m@, count);
    let own: u64 = if count {
        1
    } else {
        rank_in(m, pid)
    };
    if own > limit {
        return None;
    }
    let empty: Vec<u32> = Vec::new();
    let ks = tree::kids_of(children, pid, &empty);
    assert(ks@.take(0) =~= Seq::<u32>::empty());
    let mut acc: u64 = own;
    let mut j: usize = 0;
    while j < ks.len()
        invariant
            0 <= j <= ks@.len(),
            ks@ == tree::kids(children@, pid),
            tree::rank_fits(children@, pid, rank),
            w == weight_of(m@, count),
            own as nat == w(pid),
            own <= acc <= limit,
            tree::forest_sums_agree(children@, w, pid, j as int, (acc - own) as nat),
        decreases ks@.len() - j,
    {
        let c = ks[j];
        assert(tree::child_of(children@, pid, c));
        proof {
            tree::lemma_rank_fits_child(children@, pid, c, rank);
        }
        let ghost before = (acc - own) as nat;
        // The total over the first `j + 1` children, under any fitting rank,
        // is `before` plus the subtree total of `c`, and bounds the whole.
        assert forall|r2: spec_fn(u32) -> nat| #[trigger] tree::rank_fits(children@, pid, r2) implies {
            &&& tree::rank_fits(children@, c, r2)
            &&& tree::forest_total(children@, w, r2, ks@.take(j + 1), r2(pid)) == before
                + tree::tree_total(children@, w, r2, c)
            &&& tree::tree_total(children@, w, r2, pid) >= own + tree::forest_total(
                children@,
                w,
                r2,
                ks@.take(j + 1),
                r2(pid),
            )
        } by {
            tree::lemma_rank_fits_child(children@, pid, c, r2);
            tree::lemma_forest_prefix_le(children@, w, r2, ks@, r2(pid), j + 1);
            assert(ks@.take(j + 1).drop_last() =~= ks@.take(j as int));
            assert(ks@.take(j + 1).last() == c);
        }
        match capped_total(c, children, m, count, limit, Ghost(rank)) {
            None => {
                return None;
            },
            Some(s) => {
                if s > limit - acc {
                    return None;
                }
                proof {
                    tree::lemma_forest_step(children@, w, pid, j as int, before, s as nat);
                }
                acc = acc + s;
            },
        }
        j = j + 1;
    }
    proof {
        tree::lemma_tree_from_forest(children@, w, pid, (acc - own) as nat);
    }
    Some(acc)
}


/// Whether the total of every process of the snapshot with its descendants
/// is at most `limit`.
fn fits_everywhere(
    snap: &HashMap<u32, Sample>,
    children: &HashMap<u32, Vec<u32>>,
    m: &HashMap<u32, u64>,
    count: bool,
    limit: u64,
) -> (r: bool)
    requires
        forall|p: u32| #[trigger] tree::finite_below(children@, p),
    ensures
        r <==> forall|p: u32| #[trigger]
            snap@.contains_key(p) ==> tree::tree_total(
                children@,
                weight_of(m@, count),
                tree::rank_of(children@, p),
                p,
            ) <= limit,
{
    let pids = frame::keys_of(snap);
    let mut i: usize = 0;
    while i < pids.len()
        invariant
            0 <= i <= pids@.len(),
            forall|p: u32| pids@.contains(p) <==> snap@.contains_key(p),
            forall|p: u32| #[trigger] tree::finite_below(children@, p),
            forall|k: int|
                0 <= k < i ==> tree::tree_total(
                    children@,
                    weight_of(m@, count),
                    tree::rank_of(children@, #[trigger] pids@[k]),
                    pids@[k],
                ) <= limit,
        decreases pids@.len() - i,
    {
        let p = pids[i];
        let ghost rank = tree::rank_of(children@, p);
        assert(tree::finite_below(children@, p));
        assert(tree::rank_fits(children@, p, rank));
        match capped_total(p, children, m, count, limit, Ghost(rank)) {
            None => {
                assert(snap@.contains_key(p)) by {
                    assert(pids@.contains(p));
                }
                return false;
            },
            Some(_) => {},
        }
        i = i + 1;
    }
    assert forall|p: u32| #[trigger] snap@.contains_key(p) implies tree::tree_total(
        children@,
        weight_of(m@, count),
        tree::rank_of(children@, p),
        p,
    ) <= limit by {
        assert(pids@.contains(p));
        let k = choose|k: int| 0 <= k < pids@.len() && pids@[k] == p;
        assert(tree::tree_total(
            children@,
            weight_of(m@, count),
            tree::rank_of(children@, pids@[k]),
            pids@[k],
        ) <= limit);
    }
    true
}

// ---------------------------------------------------------------------------
// The test made before each frame's tree is walked
// ---------------------------------------------------------------------------

/// Everything that walking a frame's process tree asks of it: no cycle
/// below or above any process, and, for each process of the snapshot,
/// totals over its subtree that fit: the jiffies it used this frame and
/// over the session, and the number of its descendants.
pub open spec fn walkable(
    snap: Map<u32, Sample>,
    children: Map<u32, Vec<u32>>,
    deltas: Map<u32, u64>,
    cumulative: Map<u32, u64>,
) -> bool {
    &&& forall|p: u32| #[trigger] tree::finite_below(children, p)
    &&& forall|p: u32| #[trigger] label::ancestry_ends(snap, p)
    &&& forall|p: u32| #[trigger]
        snap.contains_key(p) ==> {
            &&& tree::subtree_sum(children, deltas, p) <= u64::MAX
            &&& tree::subtree_sum(children, cumulative, p) <= u64::MAX
            &&& tree::descendant_count(children, p) < usize::MAX
        }
    &&& forall|p: u32| #[trigger] tree::rows_drawable(snap, deltas, children, p)
}

/// Tests whether a frame's process tree can be walked, given the children
/// map of its snapshot: no cycle, and every total fits.
pub fn tree_walkable(
    snap: &HashMap<u32, Sample>,
    children: &HashMap<u32, Vec<u32>>,
    deltas: &HashMap<u32, u64>,
    cumulative: &HashMap<u32, u64>,
) -> (r: bool)
    requires
        frame::children_of_snapshot(snap@, children@),
    ensures
        r == walkable(snap@, children@, deltas@, cumulative@),
{
    let ranks = match find_ranks(children) {
        Some(m) => m,
        None => {
            return false;
        },
    };
    proof {
        assert forall|p: u32| #[trigger] tree::finite_below(children@, p) by {
            lemma_ranked_finite(children@, ranks@, p);
        }
        assert forall|p: u32| #[trigger] label::ancestry_ends(snap@, p) by {
            lemma_ancestry_from(snap@, children@, ranks@, p, 0);
        }
        assert(weight_of(deltas@, false) =~= (|q: u32| tree::amount(deltas@, q)));
        assert(weight_of(cumulative@, false) =~= (|q: u32| tree::amount(cumulative@, q)));
        assert(weight_of(deltas@, true) =~= (|q: u32| 1nat));
    }
    if !fits_everywhere(snap, children, deltas, false, u64::MAX) {
        return false;
    }
    if !fits_everywhere(snap, children, cumulative, false, u64::MAX) {
        return false;
    }
    if !fits_everywhere(snap, children, deltas, true, usize::MAX as u64) {
        proof {
            if walkable(snap@, children@, deltas@, cumulative@) {
                assert forall|p: u32| #[trigger] snap@.contains_key(p) implies tree::tree_total(
                    children@,
                    weight_of(deltas@, true),
                    tree::rank_of(children@, p),
                    p,
                ) <= usize::MAX as u64 by {
                    assert(tree::descendant_count(children@, p) < usize::MAX);
                    assert(tree::tree_total(children@, |q: u32| 1nat, tree::rank_of(children@, p), p) >= 1);
                }
            }
        }
        return false;
    }
    proof {
        assert forall|p: u32| #[trigger] snap@.contains_key(p) implies {
            &&& tree::subtree_sum(children@, deltas@, p) <= u64::MAX
            &&& tree::subtree_sum(children@, cumulative@, p) <= u64::MAX
            &&& tree::descendant_count(children@, p) < usize::MAX
        } by {
            assert(tree::finite_below(children@, p));
            let rank = tree::rank_of(children@, p);
            assert(tree::tree_total(children@, |q: u32| 1nat, rank, p) >= 1);
        }
        assert forall|p: u32| #[trigger] tree::rows_drawable(snap@, deltas@, children@, p) by {
            assert forall|q: u32| #[trigger]
                tree::reaches(children@, p, q) && snap@.contains_key(q) implies {
                &&& (label::collapse_root(snap@[q]) ==> tree::descendant_count(children@, q)
                    < usize::MAX && tree::subtree_sum(children@, deltas@, q) - tree::amount(
                    deltas@,
                    q,
                ) <= u64::MAX)
            } by {
                assert(snap@.contains_key(q));
            }
        }
    }
    true
}

} // verus!
