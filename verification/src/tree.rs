//! The process tree of one sample: sums over subtrees, the processes worth
//! showing, and the rows of the live tree.
//!
//! The tree is given by a map from a pid to the pids of its children. Its
//! model is [`kids`]; a walk down it terminates when some rank decreases
//! from every reachable process to each of its children ([`finite_below`]).
use vstd::prelude::*;
use std::collections::HashMap;
use crate::procfs::Sample;
use crate::label;
use crate::number;
use crate::text;

verus! {

broadcast use vstd::std_specs::hash::group_hash_axioms;

/// The children that `children` records for `p` (none if it has no entry).
pub open spec fn kids(children: Map<u32, Vec<u32>>, p: u32) -> Seq<u32> {
    if children.contains_key(p) {
        children[p]@
    } else {
        Seq::empty()
    }
}

/// The amount that `m` records for `p` (0 if it has no entry).
pub open spec fn amount(m: Map<u32, u64>, p: u32) -> nat {
    if m.contains_key(p) {
        m[p] as nat
    } else {
        0
    }
}

/// `c` is listed among the children of `p`.
pub open spec fn child_of(children: Map<u32, Vec<u32>>, p: u32, c: u32) -> bool {
    kids(children, p).contains(c)
}

/// Each pid of `path` is a child of the one before it.
pub open spec fn is_path(children: Map<u32, Vec<u32>>, path: Seq<u32>) -> bool {
    path.len() > 0 && forall|i: int|
        0 <= i < path.len() - 1 ==> #[trigger] child_of(children, path[i], path[i + 1])
}

/// `p` is `root` or one of its descendants.
pub open spec fn reaches(children: Map<u32, Vec<u32>>, root: u32, p: u32) -> bool {
    exists|path: Seq<u32>| #[trigger] is_path(children, path) && path[0] == root && path.last() == p
}

/// `rank` decreases from every process reachable from `root` to each of its children.
pub open spec fn rank_fits(children: Map<u32, Vec<u32>>, root: u32, rank: spec_fn(u32) -> nat) -> bool {
    forall|p: u32, c: u32|
        #![trigger reaches(children, root, p), child_of(children, p, c)]
        reaches(children, root, p) && child_of(children, p, c) ==> rank(c) < rank(p)
}

/// The tree below `root` is finite: no walk down from it goes on forever.
pub open spec fn finite_below(children: Map<u32, Vec<u32>>, root: u32) -> bool {
    exists|rank: spec_fn(u32) -> nat| rank_fits(children, root, rank)
}

/// A rank that fits the tree below `root`, where there is one.
pub open spec fn rank_of(children: Map<u32, Vec<u32>>, root: u32) -> spec_fn(u32) -> nat {
    choose|rank: spec_fn(u32) -> nat| rank_fits(children, root, rank)
}

/// A process reaches itself.
pub proof fn lemma_reaches_self(children: Map<u32, Vec<u32>>, p: u32)
    ensures
        reaches(children, p, p),
{
    let path = seq![p];
    assert(is_path(children, path));
}

/// A child of a process that `root` reaches is reached by `root` too.
pub proof fn lemma_reaches_child(children: Map<u32, Vec<u32>>, root: u32, p: u32, c: u32)
    requires
        reaches(children, root, p),
        child_of(children, p, c),
    ensures
        reaches(children, root, c),
{
    let path = choose|path: Seq<u32>|
        #[trigger] is_path(children, path) && path[0] == root && path.last() == p;
    let longer = path.push(c);
    assert forall|i: int| 0 <= i < longer.len() - 1 implies #[trigger] child_of(
        children,
        longer[i],
        longer[i + 1],
    ) by {
        if i < path.len() - 1 {
            assert(child_of(children, path[i], path[i + 1]));
        }
    }
    assert(is_path(children, longer));
}

/// What a child of `root` reaches, `root` reaches.
pub proof fn lemma_reaches_through_child(
    children: Map<u32, Vec<u32>>,
    root: u32,
    c: u32,
    p: u32,
)
    requires
        child_of(children, root, c),
        reaches(children, c, p),
    ensures
        reaches(children, root, p),
{
    let path = choose|path: Seq<u32>|
        #[trigger] is_path(children, path) && path[0] == c && path.last() == p;
    let longer = seq![root] + path;
    assert forall|i: int| 0 <= i < longer.len() - 1 implies #[trigger] child_of(
        children,
        longer[i],
        longer[i + 1],
    ) by {
        if i == 0 {
            assert(longer[1] == c);
        } else {
            assert(longer[i] == path[i - 1]);
            assert(longer[i + 1] == path[i]);
            let k = i - 1;
            assert(child_of(children, path[k], path[k + 1]));
            assert(path[k + 1] == path[i]);
        }
    }
    assert(is_path(children, longer));
}

/// A rank that fits below `root` fits below each of its children, and is
/// smaller there.
pub proof fn lemma_rank_fits_child(
    children: Map<u32, Vec<u32>>,
    root: u32,
    c: u32,
    rank: spec_fn(u32) -> nat,
)
    requires
        rank_fits(children, root, rank),
        child_of(children, root, c),
    ensures
        rank_fits(children, c, rank),
        rank(c) < rank(root),
{
    lemma_reaches_self(children, root);
    assert forall|p: u32, q: u32|
        #![trigger reaches(children, c, p), child_of(children, p, q)]
        reaches(children, c, p) && child_of(children, p, q) implies rank(q) < rank(p) by {
        lemma_reaches_through_child(children, root, c, p);
    }
}

// ---------------------------------------------------------------------------
// Sums over a subtree
// ---------------------------------------------------------------------------

/// The total `weight` of `p` and all its descendants (each as often as it
/// is listed), walking down by `rank`.
pub open spec fn tree_total(
    children: Map<u32, Vec<u32>>,
    weight: spec_fn(u32) -> nat,
    rank: spec_fn(u32) -> nat,
    p: u32,
) -> nat
    decreases rank(p), 1nat, 0nat,
{
    weight(p) + forest_total(children, weight, rank, kids(children, p), rank(p))
}

/// The total weight of the subtrees of `ps` whose roots rank below `bound`.
pub open spec fn forest_total(
    children: Map<u32, Vec<u32>>,
    weight: spec_fn(u32) -> nat,
    rank: spec_fn(u32) -> nat,
    ps: Seq<u32>,
    bound: nat,
) -> nat
    decreases bound, 0nat, ps.len(),
{
    if ps.len() == 0 {
        0
    } else {
        forest_total(children, weight, rank, ps.drop_last(), bound) + if rank(ps.last()) < bound {
            tree_total(children, weight, rank, ps.last())
        } else {
            0
        }
    }
}

/// The total that `m` records for a process and all its descendants.
pub open spec fn subtree_sum(children: Map<u32, Vec<u32>>, m: Map<u32, u64>, p: u32) -> nat {
    tree_total(children, |q: u32| amount(m, q), rank_of(children, p), p)
}

/// How many descendants a process has (each as often as it is listed).
pub open spec fn descendant_count(children: Map<u32, Vec<u32>>, p: u32) -> nat {
    (tree_total(children, |q: u32| 1nat, rank_of(children, p), p) - 1) as nat
}

/// A forest's total grows with each root added.
pub proof fn lemma_forest_prefix_le(
    children: Map<u32, Vec<u32>>,
    weight: spec_fn(u32) -> nat,
    rank: spec_fn(u32) -> nat,
    ps: Seq<u32>,
    bound: nat,
    j: int,
)
    requires
        0 <= j <= ps.len(),
    ensures
        forest_total(children, weight, rank, ps.take(j), bound) <= forest_total(
            children,
            weight,
            rank,
            ps,
            bound,
        ),
    decreases ps.len(),
{
    if j < ps.len() {
        lemma_forest_prefix_le(children, weight, rank, ps.drop_last(), bound, j);
        assert(ps.drop_last().take(j) =~= ps.take(j));
    } else {
        assert(ps.take(j) =~= ps);
    }
}

/// `acc` is the total over the subtrees of the first `j` children of `pid`,
/// under every rank that fits below `pid`.
pub open spec fn forest_sums_agree(
    children: Map<u32, Vec<u32>>,
    weight: spec_fn(u32) -> nat,
    pid: u32,
    j: int,
    acc: nat,
) -> bool {
    forall|r: spec_fn(u32) -> nat|
        #[trigger] rank_fits(children, pid, r) ==> acc == forest_total(
            children,
            weight,
            r,
            kids(children, pid).take(j),
            r(pid),
        )
}

/// One more child's subtree added to the running total over the children of `pid`.
pub proof fn lemma_forest_step(
    children: Map<u32, Vec<u32>>,
    weight: spec_fn(u32) -> nat,
    pid: u32,
    j: int,
    acc: nat,
    sub: nat,
)
    requires
        0 <= j < kids(children, pid).len(),
        forest_sums_agree(children, weight, pid, j, acc),
        forall|r: spec_fn(u32) -> nat|
            #[trigger] rank_fits(children, kids(children, pid)[j], r) ==> sub == tree_total(
                children,
                weight,
                r,
                kids(children, pid)[j],
            ),
    ensures
        forest_sums_agree(children, weight, pid, j + 1, acc + sub),
{
    let ks = kids(children, pid);
    let c = ks[j];
    assert forall|r: spec_fn(u32) -> nat| #[trigger] rank_fits(children, pid, r) implies acc + sub
        == forest_total(children, weight, r, ks.take(j + 1), r(pid)) by {
        assert(child_of(children, pid, c));
        lemma_rank_fits_child(children, pid, c, r);
        assert(ks.take(j + 1).drop_last() =~= ks.take(j));
        assert(ks.take(j + 1).last() == c);
    }
}

/// Every rank that fits below `pid` gives the same subtree total, namely
/// the weight of `pid` plus `acc`, the agreed total over its children.
pub proof fn lemma_tree_from_forest(
    children: Map<u32, Vec<u32>>,
    weight: spec_fn(u32) -> nat,
    pid: u32,
    acc: nat,
)
    requires
        forest_sums_agree(children, weight, pid, kids(children, pid).len() as int, acc),
    ensures
        forall|r: spec_fn(u32) -> nat|
            #[trigger] rank_fits(children, pid, r) ==> weight(pid) + acc == tree_total(
                children,
                weight,
                r,
                pid,
            ),
{
    let ks = kids(children, pid);
    assert(ks.take(ks.len() as int) =~= ks);
}

/// The children of `pid`, as the map lists them.
pub(crate) fn kids_of<'a>(children: &'a HashMap<u32, Vec<u32>>, pid: u32, empty: &'a Vec<u32>) -> (r: &'a Vec<u32>)
    requires
        empty@.len() == 0,
    ensures
        r@ == kids(children@, pid),
{
    match children.get(&pid) {
        Some(k) => k,
        None => empty,
    }
}

fn subtree_weight_ranked(
    pid: u32,
    deltas: &HashMap<u32, u64>,
    children: &HashMap<u32, Vec<u32>>,
    Ghost(rank): Ghost<spec_fn(u32) -> nat>,
) -> (r: u64)
    requires
        rank_fits(children@, pid, rank),
        tree_total(children@, |q: u32| amount(deltas@, q), rank, pid) <= u64::MAX,
    ensures
        forall|r2: spec_fn(u32) -> nat|
            #[trigger] rank_fits(children@, pid, r2) ==> r == tree_total(
                children@,
                |q: u32| amount(deltas@, q),
                r2,
                pid,
            ),
    decreases rank(pid),
{
    let ghost w = |q: u32| amount(deltas@, q);
    let own: u64 = match deltas.get(&pid) {
        Some(d) => *d,
        None => 0,
    };
    let empty: Vec<u32> = Vec::new();
    let ks = kids_of(children, pid, &empty);
    let ghost full = forest_total(children@, w, rank, ks@, rank(pid));
    assert(ks@.take(0) =~= Seq::<u32>::empty());
    let mut below: u64 = 0;
    let mut j: usize = 0;
    while j < ks.len()
        invariant
            0 <= j <= ks@.len(),
            ks@ == kids(children@, pid),
            rank_fits(children@, pid, rank),
            w == (|q: u32| amount(deltas@, q)),
            own as nat == w(pid),
            tree_total(children@, w, rank, pid) <= u64::MAX,
            full == forest_total(children@, w, rank, ks@, rank(pid)),
            forest_sums_agree(children@, w, pid, j as int, below as nat),
        decreases ks@.len() - j,
    {
        let c = ks[j];
        assert(child_of(children@, pid, c));
        proof {
            lemma_rank_fits_child(children@, pid, c, rank);
            lemma_forest_prefix_le(children@, w, rank, ks@, rank(pid), j + 1);
            assert(ks@.take(j + 1).drop_last() =~= ks@.take(j as int));
            assert(ks@.take(j + 1).last() == c);
        }
        let sub = subtree_weight_ranked(c, deltas, children, Ghost(rank));
        proof {
            lemma_forest_step(children@, w, pid, j as int, below as nat, sub as nat);
        }
        below = below + sub;
        j = j + 1;
    }
    proof {
        lemma_tree_from_forest(children@, w, pid, below as nat);
    }
    own + below
}

/// Sum the jiffies that `deltas` records for `pid` and all its descendants.
pub fn subtree_delta(pid: u32, deltas: &HashMap<u32, u64>, children: &HashMap<u32, Vec<u32>>) -> (r:
    u64)
    requires
        finite_below(children@, pid),
        subtree_sum(children@, deltas@, pid) <= u64::MAX,
    ensures
        r == subtree_sum(children@, deltas@, pid),
{
    let ghost rank = rank_of(children@, pid);
    subtree_weight_ranked(pid, deltas, children, Ghost(rank))
}

fn count_descendants_ranked(
    pid: u32,
    children: &HashMap<u32, Vec<u32>>,
    deltas: &HashMap<u32, u64>,
    Ghost(rank): Ghost<spec_fn(u32) -> nat>,
) -> (r: (usize, u64))
    requires
        rank_fits(children@, pid, rank),
        tree_total(children@, |q: u32| 1nat, rank, pid) - 1 <= usize::MAX,
        tree_total(children@, |q: u32| amount(deltas@, q), rank, pid) - amount(deltas@, pid)
            <= u64::MAX,
    ensures
        forall|r2: spec_fn(u32) -> nat|
            #[trigger] rank_fits(children@, pid, r2) ==> {
                &&& r.0 + 1 == tree_total(children@, |q: u32| 1nat, r2, pid)
                &&& r.1 + amount(deltas@, pid) == tree_total(
                    children@,
                    |q: u32| amount(deltas@, q),
                    r2,
                    pid,
                )
            },
    decreases rank(pid),
{
    let ghost w = |q: u32| amount(deltas@, q);
    let ghost one = |q: u32| 1nat;
    let empty: Vec<u32> = Vec::new();
    let ks = kids_of(children, pid, &empty);
    assert(ks@.take(0) =~= Seq::<u32>::empty());
    let mut count: usize = 0;
    let mut total: u64 = 0;
    let mut j: usize = 0;
    while j < ks.len()
        invariant
            0 <= j <= ks@.len(),
            ks@ == kids(children@, pid),
            rank_fits(children@, pid, rank),
            w == (|q: u32| amount(deltas@, q)),
            one == (|q: u32| 1nat),
            forest_total(children@, one, rank, ks@, rank(pid)) <= usize::MAX,
            forest_total(children@, w, rank, ks@, rank(pid)) <= u64::MAX,
            forest_sums_agree(children@, one, pid, j as int, count as nat),
            forest_sums_agree(children@, w, pid, j as int, total as nat),
        decreases ks@.len() - j,
    {
        let c = ks[j];
        assert(child_of(children@, pid, c));
        proof {
            lemma_rank_fits_child(children@, pid, c, rank);
            lemma_forest_prefix_le(children@, w, rank, ks@, rank(pid), j + 1);
            lemma_forest_prefix_le(children@, one, rank, ks@, rank(pid), j + 1);
            assert(ks@.take(j + 1).drop_last() =~= ks@.take(j as int));
            assert(ks@.take(j + 1).last() == c);
        }
        let d: u64 = match deltas.get(&c) {
            Some(d) => *d,
            None => 0,
        };
        let (sub_c, sub_t) = count_descendants_ranked(c, children, deltas, Ghost(rank));
        proof {
            lemma_forest_step(children@, w, pid, j as int, total as nat, (d + sub_t) as nat);
            lemma_forest_step(children@, one, pid, j as int, count as nat, (1 + sub_c) as nat);
        }
        count = count + 1;
        total = total + d;
        count = count + sub_c;
        total = total + sub_t;
        j = j + 1;
    }
    proof {
        lemma_tree_from_forest(children@, w, pid, total as nat);
        lemma_tree_from_forest(children@, one, pid, count as nat);
    }
    (count, total)
}

/// The number of descendants of `pid` and the jiffies that `deltas`
/// records for them (`pid` itself not included).
pub fn count_descendants(pid: u32, children: &HashMap<u32, Vec<u32>>, deltas: &HashMap<u32, u64>) -> (r:
    (usize, u64))
    requires
        finite_below(children@, pid),
        descendant_count(children@, pid) <= usize::MAX,
        subtree_sum(children@, deltas@, pid) - amount(deltas@, pid) <= u64::MAX,
    ensures
        r.0 == descendant_count(children@, pid),
        r.1 == subtree_sum(children@, deltas@, pid) - amount(deltas@, pid),
{
    let ghost rank = rank_of(children@, pid);
    count_descendants_ranked(pid, children, deltas, Ghost(rank))
}


/// The total over a subtree does not depend on which fitting rank walks it.
proof fn lemma_tree_total_any_rank(
    children: Map<u32, Vec<u32>>,
    w: spec_fn(u32) -> nat,
    r1: spec_fn(u32) -> nat,
    r2: spec_fn(u32) -> nat,
    p: u32,
)
    requires
        rank_fits(children, p, r1),
        rank_fits(children, p, r2),
    ensures
        tree_total(children, w, r1, p) == tree_total(children, w, r2, p),
    decreases r1(p), 1nat, 0nat,
{
    let ks = kids(children, p);
    lemma_forest_any_rank(children, w, r1, r2, p, ks.len());
    assert(ks.take(ks.len() as int) =~= ks);
}

/// The totals over the subtrees of the first `j` children of `p` agree
/// under any two fitting ranks.
proof fn lemma_forest_any_rank(
    children: Map<u32, Vec<u32>>,
    w: spec_fn(u32) -> nat,
    r1: spec_fn(u32) -> nat,
    r2: spec_fn(u32) -> nat,
    p: u32,
    j: nat,
)
    requires
        rank_fits(children, p, r1),
        rank_fits(children, p, r2),
        j <= kids(children, p).len(),
    ensures
        forest_total(children, w, r1, kids(children, p).take(j as int), r1(p)) == forest_total(
            children,
            w,
            r2,
            kids(children, p).take(j as int),
            r2(p),
        ),
    decreases r1(p), 0nat, j,
{
    let ks = kids(children, p);
    if j > 0 {
        let c = ks[j - 1];
        assert(child_of(children, p, c));
        lemma_rank_fits_child(children, p, c, r1);
        lemma_rank_fits_child(children, p, c, r2);
        lemma_forest_any_rank(children, w, r1, r2, p, (j - 1) as nat);
        lemma_tree_total_any_rank(children, w, r1, r2, c);
        assert(ks.take(j as int).drop_last() =~= ks.take(j - 1));
        assert(ks.take(j as int).last() == c);
    } else {
        assert(ks.take(0) =~= Seq::<u32>::empty());
    }
}

/// The totals of the subtrees of `ks`, each walked by a rank that fits it, added up.
pub open spec fn subtrees_total(children: Map<u32, Vec<u32>>, w: spec_fn(u32) -> nat, ks: Seq<u32>) -> nat
    decreases ks.len(),
{
    if ks.len() == 0 {
        0
    } else {
        subtrees_total(children, w, ks.drop_last()) + tree_total(children, w, rank_of(children, ks.last()), ks.last())
    }
}

/// A subtree's total is the weight of its root plus the totals of the
/// subtrees of its children.
proof fn lemma_total_splits(children: Map<u32, Vec<u32>>, w: spec_fn(u32) -> nat, p: u32, j: nat)
    requires
        finite_below(children, p),
        j <= kids(children, p).len(),
    ensures
        forest_total(children, w, rank_of(children, p), kids(children, p).take(j as int), rank_of(children, p)(p))
            == subtrees_total(children, w, kids(children, p).take(j as int)),
    decreases j,
{
    let ks = kids(children, p);
    let r = rank_of(children, p);
    if j > 0 {
        let c = ks[j - 1];
        assert(child_of(children, p, c));
        lemma_rank_fits_child(children, p, c, r);
        assert(finite_below(children, c));
        lemma_tree_total_any_rank(children, w, r, rank_of(children, c), c);
        lemma_total_splits(children, w, p, (j - 1) as nat);
        assert(ks.take(j as int).drop_last() =~= ks.take(j - 1));
        assert(ks.take(j as int).last() == c);
    } else {
        assert(ks.take(0) =~= Seq::<u32>::empty());
    }
}

/// The subtree sums of the processes of `ks`, added up.
pub open spec fn subtree_sums(children: Map<u32, Vec<u32>>, m: Map<u32, u64>, ks: Seq<u32>) -> nat
    decreases ks.len(),
{
    if ks.len() == 0 {
        0
    } else {
        subtree_sums(children, m, ks.drop_last()) + subtree_sum(children, m, ks.last())
    }
}

/// Law: the total of a process's subtree is what it recorded itself plus
/// the totals of its children's subtrees; and the processes below it are
/// its children and, under each, that child's descendants.
pub proof fn lemma_subtree_splits(children: Map<u32, Vec<u32>>, m: Map<u32, u64>, p: u32)
    requires
        finite_below(children, p),
    ensures
        subtree_sum(children, m, p) == amount(m, p) + subtree_sums(children, m, kids(children, p)),
        descendant_count(children, p) == counts_below(children, kids(children, p)),
{
    let ks = kids(children, p);
    let w = |q: u32| amount(m, q);
    let one = |q: u32| 1nat;
    lemma_total_splits(children, w, p, ks.len());
    lemma_total_splits(children, one, p, ks.len());
    assert(ks.take(ks.len() as int) =~= ks);
    lemma_sums_agree(children, m, ks);
    lemma_counts_agree(children, ks);
}

/// Each of `ks` with its descendants, counted and added up.
pub open spec fn counts_below(children: Map<u32, Vec<u32>>, ks: Seq<u32>) -> nat
    decreases ks.len(),
{
    if ks.len() == 0 {
        0
    } else {
        counts_below(children, ks.drop_last()) + 1 + descendant_count(children, ks.last())
    }
}

/// Counting a subtree's processes counts its root and its descendants.
proof fn lemma_counts_agree(children: Map<u32, Vec<u32>>, ks: Seq<u32>)
    ensures
        subtrees_total(children, |q: u32| 1nat, ks) == counts_below(children, ks),
    decreases ks.len(),
{
    if ks.len() > 0 {
        lemma_counts_agree(children, ks.drop_last());
        let k = ks.last();
        assert(tree_total(children, |q: u32| 1nat, rank_of(children, k), k) >= 1);
    }
}

/// Subtree sums are subtree totals weighted by what `m` records.
proof fn lemma_sums_agree(children: Map<u32, Vec<u32>>, m: Map<u32, u64>, ks: Seq<u32>)
    ensures
        subtrees_total(children, |q: u32| amount(m, q), ks) == subtree_sums(children, m, ks),
    decreases ks.len(),
{
    if ks.len() > 0 {
        lemma_sums_agree(children, m, ks.drop_last());
    }
}

// ---------------------------------------------------------------------------
// The processes worth showing
// ---------------------------------------------------------------------------

/// The processes shown in place of `p`: nothing if nothing below it used
/// CPU or it is not in the snapshot; its visible descendants if it used no
/// CPU itself (unless it is a browser's main process); otherwise `p`.
pub open spec fn visible_node(
    snap: Map<u32, Sample>,
    deltas: Map<u32, u64>,
    children: Map<u32, Vec<u32>>,
    subtree: Map<u32, u64>,
    rank: spec_fn(u32) -> nat,
    p: u32,
) -> Seq<u32>
    decreases rank(p), 1nat, 0nat,
{
    if amount(subtree, p) == 0 || !snap.contains_key(p) {
        Seq::empty()
    } else if amount(deltas, p) == 0 && !label::collapse_root(snap[p]) {
        visible_forest(snap, deltas, children, subtree, rank, kids(children, p), rank(p))
    } else {
        seq![p]
    }
}

/// The processes shown in place of those of `ps` that rank below `bound`, in order.
pub open spec fn visible_forest(
    snap: Map<u32, Sample>,
    deltas: Map<u32, u64>,
    children: Map<u32, Vec<u32>>,
    subtree: Map<u32, u64>,
    rank: spec_fn(u32) -> nat,
    ps: Seq<u32>,
    bound: nat,
) -> Seq<u32>
    decreases bound, 0nat, ps.len(),
{
    if ps.len() == 0 {
        Seq::empty()
    } else {
        visible_forest(snap, deltas, children, subtree, rank, ps.drop_last(), bound) + if rank(
            ps.last(),
        ) < bound {
            visible_node(snap, deltas, children, subtree, rank, ps.last())
        } else {
            Seq::empty()
        }
    }
}

/// The processes shown in place of `p`.
pub open spec fn visible_from(
    snap: Map<u32, Sample>,
    deltas: Map<u32, u64>,
    children: Map<u32, Vec<u32>>,
    subtree: Map<u32, u64>,
    p: u32,
) -> Seq<u32> {
    visible_node(snap, deltas, children, subtree, rank_of(children, p), p)
}

/// The processes shown in place of each of `ps`, in order.
pub open spec fn visible_all(
    snap: Map<u32, Sample>,
    deltas: Map<u32, u64>,
    children: Map<u32, Vec<u32>>,
    subtree: Map<u32, u64>,
    ps: Seq<u32>,
) -> Seq<u32>
    decreases ps.len(),
{
    if ps.len() == 0 {
        Seq::empty()
    } else {
        visible_all(snap, deltas, children, subtree, ps.drop_last()) + visible_from(
            snap,
            deltas,
            children,
            subtree,
            ps.last(),
        )
    }
}

fn visible_ranked(
    pid: u32,
    snap: &HashMap<u32, Sample>,
    deltas: &HashMap<u32, u64>,
    children: &HashMap<u32, Vec<u32>>,
    subtree: &HashMap<u32, u64>,
    Ghost(rank): Ghost<spec_fn(u32) -> nat>,
) -> (r: Vec<u32>)
    requires
        rank_fits(children@, pid, rank),
    ensures
        forall|r2: spec_fn(u32) -> nat|
            #[trigger] rank_fits(children@, pid, r2) ==> r@ == visible_node(
                snap@,
                deltas@,
                children@,
                subtree@,
                r2,
                pid,
            ),
    decreases rank(pid),
{
    let load: u64 = match subtree.get(&pid) {
        Some(x) => *x,
        None => 0,
    };
    if load == 0 {
        return Vec::new();
    }
    let sample = match snap.get(&pid) {
        Some(s) => s,
        None => return Vec::new(),
    };
    let own: u64 = match deltas.get(&pid) {
        Some(x) => *x,
        None => 0,
    };
    if own == 0 && !label::is_collapse_root(sample) {
        let empty: Vec<u32> = Vec::new();
        let ks = kids_of(children, pid, &empty);
        let mut out: Vec<u32> = Vec::new();
        let mut j: usize = 0;
        assert(ks@.take(0) =~= Seq::<u32>::empty());
        while j < ks.len()
            invariant
                0 <= j <= ks@.len(),
                ks@ == kids(children@, pid),
                rank_fits(children@, pid, rank),
                forall|r2: spec_fn(u32) -> nat|
                    #[trigger] rank_fits(children@, pid, r2) ==> out@ == visible_forest(
                        snap@,
                        deltas@,
                        children@,
                        subtree@,
                        r2,
                        ks@.take(j as int),
                        r2(pid),
                    ),
            decreases ks@.len() - j,
        {
            let c = ks[j];
            assert(child_of(children@, pid, c));
            proof {
                lemma_rank_fits_child(children@, pid, c, rank);
            }
            let mut sub = visible_ranked(c, snap, deltas, children, subtree, Ghost(rank));
            let ghost before = out@;
            let ghost got = sub@;
            out.append(&mut sub);
            assert forall|r2: spec_fn(u32) -> nat| #[trigger] rank_fits(children@, pid, r2) implies out@
                == visible_forest(
                snap@,
                deltas@,
                children@,
                subtree@,
                r2,
                ks@.take(j + 1),
                r2(pid),
            ) by {
                lemma_rank_fits_child(children@, pid, c, r2);
                assert(ks@.take(j + 1).drop_last() =~= ks@.take(j as int));
                assert(ks@.take(j + 1).last() == c);
            }
            j = j + 1;
        }
        assert(ks@.take(ks@.len() as int) =~= ks@);
        out
    } else {
        let mut out: Vec<u32> = Vec::new();
        out.push(pid);
        assert(out@ =~= seq![pid]);
        out
    }
}

/// Hide any process that used 0% CPU during the sample by replacing it with
/// its (recursively flattened) visible descendants. Browser collapse roots
/// are kept so the user can see them. Dead subtrees (zero CPU anywhere
/// underneath) are dropped.
pub fn flatten_visible(
    candidates: &[u32],
    snap: &HashMap<u32, Sample>,
    deltas: &HashMap<u32, u64>,
    children: &HashMap<u32, Vec<u32>>,
    subtree: &HashMap<u32, u64>,
) -> (r: Vec<u32>)
    requires
        forall|i: int| 0 <= i < candidates@.len() ==> finite_below(children@, #[trigger] candidates@[i]),
    ensures
        r@ == visible_all(snap@, deltas@, children@, subtree@, candidates@),
{
    let mut out: Vec<u32> = Vec::new();
    let mut i: usize = 0;
    assert(candidates@.take(0) =~= Seq::<u32>::empty());
    while i < candidates.len()
        invariant
            0 <= i <= candidates@.len(),
            forall|k: int| 0 <= k < candidates@.len() ==> finite_below(children@, #[trigger] candidates@[k]),
            out@ == visible_all(snap@, deltas@, children@, subtree@, candidates@.take(i as int)),
        decreases candidates@.len() - i,
    {
        let c = candidates[i];
        assert(finite_below(children@, candidates@[i as int]));
        let ghost rank = rank_of(children@, c);
        let mut sub = visible_ranked(c, snap, deltas, children, subtree, Ghost(rank));
        out.append(&mut sub);
        assert(candidates@.take(i + 1).drop_last() =~= candidates@.take(i as int));
        assert(candidates@.take(i + 1).last() == c);
        i = i + 1;
    }
    assert(candidates@.take(candidates@.len() as int) =~= candidates@);
    out
}


// ---------------------------------------------------------------------------
// Busiest first
// ---------------------------------------------------------------------------

/// `a` is shown before `b`: more CPU below it, or as much and a smaller pid.
pub open spec fn busier(load: Map<u32, u64>, a: u32, b: u32) -> bool {
    amount(load, a) > amount(load, b) || (amount(load, a) == amount(load, b) && a < b)
}

/// `x` placed into `s` before the first process that is not busier than it.
pub open spec fn insert_by_load(load: Map<u32, u64>, x: u32, s: Seq<u32>) -> Seq<u32>
    decreases s.len(),
{
    if s.len() == 0 {
        seq![x]
    } else if busier(load, s[0], x) {
        seq![s[0]] + insert_by_load(load, x, s.drop_first())
    } else {
        seq![x] + s
    }
}

/// The pids of `s`, busiest first (ties by pid, ascending), as
/// `sort_by(|a, b| load[b].cmp(&load[a]).then_with(|| a.cmp(b)))` orders them.
pub open spec fn sort_by_load(load: Map<u32, u64>, s: Seq<u32>) -> Seq<u32>
    decreases s.len(),
{
    if s.len() == 0 {
        Seq::empty()
    } else {
        insert_by_load(load, s.last(), sort_by_load(load, s.drop_last()))
    }
}

/// Inserting at the first position whose pid is not busier is `insert_by_load`.
proof fn lemma_insert_at(load: Map<u32, u64>, x: u32, s: Seq<u32>, p: int)
    requires
        0 <= p <= s.len(),
        forall|i: int| 0 <= i < p ==> busier(load, #[trigger] s[i], x),
        p == s.len() || !busier(load, s[p], x),
    ensures
        insert_by_load(load, x, s) == s.insert(p, x),
    decreases s.len(),
{
    if s.len() == 0 {
        assert(s.insert(p, x) =~= seq![x]);
    } else if p == 0 {
        assert(s.insert(p, x) =~= seq![x] + s);
    } else {
        let t = s.drop_first();
        assert forall|i: int| 0 <= i < p - 1 implies busier(load, #[trigger] t[i], x) by {
            assert(t[i] == s[i + 1]);
        }
        if p - 1 < t.len() {
            assert(t[p - 1] == s[p]);
        }
        lemma_insert_at(load, x, t, p - 1);
        assert(s.insert(p, x) =~= seq![s[0]] + t.insert(p - 1, x));
    }
}

/// The pids of `pids`, busiest first by `load`.
pub fn order_busiest_first(pids: &Vec<u32>, load: &HashMap<u32, u64>) -> (r: Vec<u32>)
    ensures
        r@ == sort_by_load(load@, pids@),
{
    let mut out: Vec<u32> = Vec::new();
    let mut k: usize = 0;
    assert(pids@.take(0) =~= Seq::<u32>::empty());
    while k < pids.len()
        invariant
            0 <= k <= pids@.len(),
            out@ == sort_by_load(load@, pids@.take(k as int)),
        decreases pids@.len() - k,
    {
        let x = pids[k];
        let lx: u64 = match load.get(&x) {
            Some(v) => *v,
            None => 0,
        };
        let mut p: usize = 0;
        while p < out.len()
            invariant
                0 <= p <= out@.len(),
                lx == amount(load@, x),
                forall|i: int| 0 <= i < p ==> busier(load@, #[trigger] out@[i], x),
            ensures
                0 <= p <= out@.len(),
                forall|i: int| 0 <= i < p ==> busier(load@, #[trigger] out@[i], x),
                p == out@.len() || !busier(load@, out@[p as int], x),
            decreases out@.len() - p,
        {
            let y = out[p];
            let ly: u64 = match load.get(&y) {
                Some(v) => *v,
                None => 0,
            };
            if !(ly > lx || (ly == lx && y < x)) {
                break;
            }
            p = p + 1;
        }
        proof {
            lemma_insert_at(load@, x, out@, p as int);
            assert(pids@.take(k + 1).drop_last() =~= pids@.take(k as int));
            assert(pids@.take(k + 1).last() == x);
        }
        out.insert(p, x);
        k = k + 1;
    }
    assert(pids@.take(pids@.len() as int) =~= pids@);
    out
}


// ---------------------------------------------------------------------------
// Where the shown processes lie
// ---------------------------------------------------------------------------

/// Reaching is transitive.
pub proof fn lemma_reaches_trans(children: Map<u32, Vec<u32>>, a: u32, b: u32, c: u32)
    requires
        reaches(children, a, b),
        reaches(children, b, c),
    ensures
        reaches(children, a, c),
{
    let p = choose|path: Seq<u32>| #[trigger] is_path(children, path) && path[0] == a && path.last() == b;
    let q = choose|path: Seq<u32>| #[trigger] is_path(children, path) && path[0] == b && path.last() == c;
    let joined = p + q.drop_first();
    assert forall|i: int| 0 <= i < joined.len() - 1 implies #[trigger] child_of(
        children,
        joined[i],
        joined[i + 1],
    ) by {
        if i < p.len() - 1 {
            assert(child_of(children, p[i], p[i + 1]));
        } else {
            let k = i - (p.len() - 1);
            assert(joined[i] == q[k]);
            assert(joined[i + 1] == q[k + 1]);
            assert(child_of(children, q[k], q[k + 1]));
        }
    }
    if q.len() == 1 {
        assert(joined =~= p);
    } else {
        assert(joined.last() == q.last());
    }
    assert(is_path(children, joined));
}

/// Along a path down from `root`, every process is reached and the rank
/// never grows.
proof fn lemma_rank_along_path(
    children: Map<u32, Vec<u32>>,
    root: u32,
    rank: spec_fn(u32) -> nat,
    path: Seq<u32>,
    i: int,
)
    requires
        rank_fits(children, root, rank),
        is_path(children, path),
        path[0] == root,
        0 <= i < path.len(),
    ensures
        reaches(children, root, path[i]),
        rank(path[i]) <= rank(root),
    decreases i,
{
    if i == 0 {
        lemma_reaches_self(children, root);
    } else {
        lemma_rank_along_path(children, root, rank, path, i - 1);
        let k = i - 1;
        assert(child_of(children, path[k], path[k + 1]));
        lemma_reaches_child(children, root, path[k], path[i]);
    }
}

/// A rank that fits below `root` fits below anything `root` reaches, and is no larger there.
pub proof fn lemma_rank_fits_reached(
    children: Map<u32, Vec<u32>>,
    root: u32,
    x: u32,
    rank: spec_fn(u32) -> nat,
)
    requires
        rank_fits(children, root, rank),
        reaches(children, root, x),
    ensures
        rank_fits(children, x, rank),
        rank(x) <= rank(root),
{
    let path = choose|path: Seq<u32>| #[trigger] is_path(children, path) && path[0] == root && path.last() == x;
    lemma_rank_along_path(children, root, rank, path, path.len() - 1);
    assert forall|p: u32, q: u32|
        #![trigger reaches(children, x, p), child_of(children, p, q)]
        reaches(children, x, p) && child_of(children, p, q) implies rank(q) < rank(p) by {
        lemma_reaches_trans(children, root, x, p);
    }
}

/// What is shown in place of `p` lies below `p` (or is `p`).
proof fn lemma_visible_node_reached(
    snap: Map<u32, Sample>,
    deltas: Map<u32, u64>,
    children: Map<u32, Vec<u32>>,
    subtree: Map<u32, u64>,
    rank: spec_fn(u32) -> nat,
    p: u32,
)
    requires
        rank_fits(children, p, rank),
    ensures
        forall|x: u32|
            visible_node(snap, deltas, children, subtree, rank, p).contains(x) ==> reaches(
                children,
                p,
                x,
            ),
    decreases rank(p), 1nat, 0nat,
{
    if amount(subtree, p) == 0 || !snap.contains_key(p) {
    } else if amount(deltas, p) == 0 && !label::collapse_root(snap[p]) {
        lemma_visible_forest_reached(snap, deltas, children, subtree, rank, p, kids(children, p).len() as int);
        assert(kids(children, p).take(kids(children, p).len() as int) =~= kids(children, p));
    } else {
        lemma_reaches_self(children, p);
        assert forall|x: u32| visible_node(snap, deltas, children, subtree, rank, p).contains(x) implies reaches(children, p, x) by {
            assert(seq![p][0] == p);
        }
    }
}

/// What is shown in place of the first `j` children of `p` lies below `p`.
proof fn lemma_visible_forest_reached(
    snap: Map<u32, Sample>,
    deltas: Map<u32, u64>,
    children: Map<u32, Vec<u32>>,
    subtree: Map<u32, u64>,
    rank: spec_fn(u32) -> nat,
    p: u32,
    j: int,
)
    requires
        rank_fits(children, p, rank),
        0 <= j <= kids(children, p).len(),
    ensures
        forall|x: u32|
            visible_forest(snap, deltas, children, subtree, rank, kids(children, p).take(j), rank(p)).contains(x)
                ==> reaches(children, p, x),
    decreases rank(p), 0nat, j,
{
    let ks = kids(children, p);
    if j > 0 {
        let c = ks[j - 1];
        assert(ks.take(j).drop_last() =~= ks.take(j - 1));
        assert(ks.take(j).last() == c);
        assert(child_of(children, p, c));
        lemma_rank_fits_child(children, p, c, rank);
        lemma_visible_forest_reached(snap, deltas, children, subtree, rank, p, j - 1);
        lemma_visible_node_reached(snap, deltas, children, subtree, rank, c);
        let left = visible_forest(snap, deltas, children, subtree, rank, ks.take(j - 1), rank(p));
        let right = visible_node(snap, deltas, children, subtree, rank, c);
        assert forall|x: u32| (left + right).contains(x) implies reaches(children, p, x) by {
            let i = choose|i: int| 0 <= i < (left + right).len() && (left + right)[i] == x;
            if i < left.len() {
                assert(left[i] == x);
            } else {
                assert(right[i - left.len()] == x);
                lemma_reaches_through_child(children, p, c, x);
            }
        }
    }
}

/// Whatever is shown in place of a list of processes is shown in place of one of them.
proof fn lemma_visible_all_member(
    snap: Map<u32, Sample>,
    deltas: Map<u32, u64>,
    children: Map<u32, Vec<u32>>,
    subtree: Map<u32, u64>,
    ps: Seq<u32>,
    x: u32,
)
    requires
        visible_all(snap, deltas, children, subtree, ps).contains(x),
    ensures
        exists|k: int|
            0 <= k < ps.len() && visible_from(snap, deltas, children, subtree, #[trigger] ps[k]).contains(x),
    decreases ps.len(),
{
    let left = visible_all(snap, deltas, children, subtree, ps.drop_last());
    let right = visible_from(snap, deltas, children, subtree, ps.last());
    let i = choose|i: int| 0 <= i < (left + right).len() && (left + right)[i] == x;
    if i < left.len() {
        assert(left[i] == x);
        lemma_visible_all_member(snap, deltas, children, subtree, ps.drop_last(), x);
        let k = choose|k: int|
            0 <= k < ps.drop_last().len() && visible_from(snap, deltas, children, subtree, #[trigger] ps.drop_last()[k]).contains(x);
        assert(ps[k] == ps.drop_last()[k]);
    } else {
        assert(right[i - left.len()] == x);
        assert(ps[ps.len() - 1] == ps.last());
    }
}

/// Placing `x` adds exactly `x`.
proof fn lemma_insert_contains(load: Map<u32, u64>, x: u32, s: Seq<u32>, y: u32)
    ensures
        insert_by_load(load, x, s).contains(y) <==> (y == x || s.contains(y)),
    decreases s.len(),
{
    if s.len() == 0 {
        assert(seq![x][0] == x);
    } else if busier(load, s[0], x) {
        lemma_insert_contains(load, x, s.drop_first(), y);
        let t = insert_by_load(load, x, s.drop_first());
        assert((seq![s[0]] + t)[0] == s[0]);
        if (seq![s[0]] + t).contains(y) {
            let i = choose|i: int| 0 <= i < (seq![s[0]] + t).len() && (seq![s[0]] + t)[i] == y;
            if i > 0 {
                assert(t[i - 1] == y);
                if s.drop_first().contains(y) {
                    let k = choose|k: int| 0 <= k < s.drop_first().len() && s.drop_first()[k] == y;
                    assert(s[k + 1] == y);
                }
            }
        }
        if s.contains(y) && y != x {
            let i = choose|i: int| 0 <= i < s.len() && s[i] == y;
            if i > 0 {
                assert(s.drop_first()[i - 1] == y);
                let k = choose|k: int| 0 <= k < t.len() && t[k] == y;
                assert((seq![s[0]] + t)[k + 1] == y);
            }
        }
        if y == x {
            let k = choose|k: int| 0 <= k < t.len() && t[k] == y;
            assert((seq![s[0]] + t)[k + 1] == y);
        }
    } else {
        let r = seq![x] + s;
        assert(r[0] == x);
        if r.contains(y) {
            let i = choose|i: int| 0 <= i < r.len() && r[i] == y;
            if i > 0 {
                assert(s[i - 1] == y);
            }
        }
        if s.contains(y) {
            let i = choose|i: int| 0 <= i < s.len() && s[i] == y;
            assert(r[i + 1] == y);
        }
    }
}

/// Ordering keeps exactly the pids that were there.
pub proof fn lemma_sort_contains(load: Map<u32, u64>, s: Seq<u32>, y: u32)
    ensures
        sort_by_load(load, s).contains(y) <==> s.contains(y),
    decreases s.len(),
{
    if s.len() > 0 {
        lemma_sort_contains(load, s.drop_last(), y);
        lemma_insert_contains(load, s.last(), sort_by_load(load, s.drop_last()), y);
        if s.contains(y) && y != s.last() {
            let i = choose|i: int| 0 <= i < s.len() && s[i] == y;
            assert(s.drop_last()[i] == y);
        }
        if s.drop_last().contains(y) {
            let i = choose|i: int| 0 <= i < s.drop_last().len() && s.drop_last()[i] == y;
            assert(s[i] == y);
        }
        if y == s.last() {
            assert(s[s.len() - 1] == y);
        }
    }
}

/// The processes shown as children of `pid` in the live tree.
pub open spec fn shown_children(
    snap: Map<u32, Sample>,
    deltas: Map<u32, u64>,
    children: Map<u32, Vec<u32>>,
    subtree: Map<u32, u64>,
    pid: u32,
) -> Seq<u32> {
    sort_by_load(subtree, visible_all(snap, deltas, children, subtree, kids(children, pid)))
}

/// The processes shown as children of `pid` lie strictly below it.
pub proof fn lemma_shown_children_below(
    snap: Map<u32, Sample>,
    deltas: Map<u32, u64>,
    children: Map<u32, Vec<u32>>,
    subtree: Map<u32, u64>,
    pid: u32,
    rank: spec_fn(u32) -> nat,
    x: u32,
)
    requires
        rank_fits(children, pid, rank),
        shown_children(snap, deltas, children, subtree, pid).contains(x),
    ensures
        reaches(children, pid, x),
        rank(x) < rank(pid),
{
    let ks = kids(children, pid);
    lemma_sort_contains(subtree, visible_all(snap, deltas, children, subtree, ks), x);
    lemma_visible_all_member(snap, deltas, children, subtree, ks, x);
    let k = choose|k: int| 0 <= k < ks.len() && visible_from(snap, deltas, children, subtree, #[trigger] ks[k]).contains(x);
    let c = ks[k];
    assert(child_of(children, pid, c));
    lemma_rank_fits_child(children, pid, c, rank);
    let rc = rank_of(children, c);
    assert(rank_fits(children, c, rc));
    lemma_visible_node_reached(snap, deltas, children, subtree, rc, c);
    lemma_reaches_through_child(children, pid, c, x);
    lemma_rank_fits_reached(children, c, x, rank);
}


// ---------------------------------------------------------------------------
// The rows of the live tree
// ---------------------------------------------------------------------------

/// One line of the live tree: the process, the CPU jiffies shown for it,
/// the tree drawing before its label, and the label.
pub struct TreeRow {
    pub pid: u32,
    pub delta: u64,
    pub indent: String,
    pub label: String,
}

/// A row as plain values.
pub open spec fn row_view(r: TreeRow) -> (u32, nat, Seq<char>, Seq<char>) {
    (r.pid, r.delta as nat, r.indent@, r.label@)
}

/// Rows as plain values.
pub open spec fn rows_view(rs: Seq<TreeRow>) -> Seq<(u32, nat, Seq<char>, Seq<char>)> {
    Seq::new(rs.len(), |i: int| row_view(rs[i]))
}

/// The branch drawn before a label.
pub open spec fn branch(is_last: bool, is_root: bool) -> Seq<char> {
    if is_root {
        Seq::empty()
    } else if is_last {
        "└─ "@
    } else {
        "├─ "@
    }
}

/// The drawing before the labels of a process's children.
pub open spec fn child_prefix(prefix: Seq<char>, is_last: bool, is_root: bool) -> Seq<char> {
    if is_root {
        Seq::empty()
    } else if is_last {
        prefix + "   "@
    } else {
        prefix + "│  "@
    }
}

/// The label of a row: a browser's main process also shows its command
/// name and how many processes its subtree folds.
pub open spec fn row_label(
    snap: Map<u32, Sample>,
    children: Map<u32, Vec<u32>>,
    pid: u32,
) -> Seq<char> {
    let s = snap[pid];
    if label::collapse_root(s) {
        "["@ + s.comm@ + ", "@ + number::decimal(descendant_count(children, pid) + 1) + " procs] "@
            + label::pretty_label(pid, s, snap)
    } else {
        label::pretty_label(pid, s, snap)
    }
}

/// The jiffies a row shows: the whole subtree's for a browser's main process.
pub open spec fn row_delta(
    snap: Map<u32, Sample>,
    deltas: Map<u32, u64>,
    subtree: Map<u32, u64>,
    pid: u32,
) -> nat {
    if label::collapse_root(snap[pid]) {
        amount(subtree, pid)
    } else {
        amount(deltas, pid)
    }
}

/// The rows drawn for `pid` and what is shown below it, when `used` of
/// `max` rows are already taken: its own row, then (unless it folds its
/// subtree) the rows of its shown children, busiest first, while rows remain.
pub open spec fn node_rows(
    snap: Map<u32, Sample>,
    deltas: Map<u32, u64>,
    children: Map<u32, Vec<u32>>,
    subtree: Map<u32, u64>,
    rank: spec_fn(u32) -> nat,
    pid: u32,
    prefix: Seq<char>,
    is_last: bool,
    is_root: bool,
    used: nat,
    max: nat,
) -> Seq<(u32, nat, Seq<char>, Seq<char>)>
    decreases rank(pid), 1nat, 0nat,
{
    if used >= max || !snap.contains_key(pid) {
        Seq::empty()
    } else {
        let row = (
            pid,
            row_delta(snap, deltas, subtree, pid),
            prefix + branch(is_last, is_root),
            row_label(snap, children, pid),
        );
        if label::collapse_root(snap[pid]) {
            seq![row]
        } else {
            seq![row] + child_rows(
                snap,
                deltas,
                children,
                subtree,
                rank,
                shown_children(snap, deltas, children, subtree, pid),
                0,
                child_prefix(prefix, is_last, is_root),
                used + 1,
                max,
                rank(pid),
            )
        }
    }
}

/// The rows of the shown children `vis[i..]` (those ranked below `bound`),
/// when `used` of `max` rows are already taken.
pub open spec fn child_rows(
    snap: Map<u32, Sample>,
    deltas: Map<u32, u64>,
    children: Map<u32, Vec<u32>>,
    subtree: Map<u32, u64>,
    rank: spec_fn(u32) -> nat,
    vis: Seq<u32>,
    i: int,
    prefix: Seq<char>,
    used: nat,
    max: nat,
    bound: nat,
) -> Seq<(u32, nat, Seq<char>, Seq<char>)>
    decreases bound, 0nat, vis.len() - i,
{
    if i < 0 || i >= vis.len() || used >= max {
        Seq::empty()
    } else {
        let first = if rank(vis[i]) < bound {
            node_rows(
                snap,
                deltas,
                children,
                subtree,
                rank,
                vis[i],
                prefix,
                i + 1 == vis.len(),
                false,
                used,
                max,
            )
        } else {
            Seq::empty()
        };
        first + child_rows(
            snap,
            deltas,
            children,
            subtree,
            rank,
            vis,
            i + 1,
            prefix,
            used + first.len(),
            max,
            bound,
        )
    }
}

/// What drawing the tree below `root` needs of each process there: a
/// browser's main process has few enough descendants to count them and add
/// up their jiffies.
pub open spec fn rows_drawable(
    snap: Map<u32, Sample>,
    deltas: Map<u32, u64>,
    children: Map<u32, Vec<u32>>,
    root: u32,
) -> bool {
    forall|p: u32|
        #[trigger] reaches(children, root, p) && snap.contains_key(p) ==> {
            &&& (label::collapse_root(snap[p]) ==> descendant_count(children, p) < usize::MAX
                && subtree_sum(children, deltas, p) - amount(deltas, p) <= u64::MAX)
        }
}

/// What holds below `root` holds below anything it reaches.
proof fn lemma_drawable_reached(
    snap: Map<u32, Sample>,
    deltas: Map<u32, u64>,
    children: Map<u32, Vec<u32>>,
    root: u32,
    x: u32,
)
    requires
        rows_drawable(snap, deltas, children, root),
        reaches(children, root, x),
    ensures
        rows_drawable(snap, deltas, children, x),
{
    assert forall|p: u32| #[trigger] reaches(children, x, p) && snap.contains_key(p) implies {
        &&& (label::collapse_root(snap[p]) ==> descendant_count(children, p) < usize::MAX
            && subtree_sum(children, deltas, p) - amount(deltas, p) <= u64::MAX)
    } by {
        lemma_reaches_trans(children, root, x, p);
    }
}

/// The label of the row of `pid`.
fn make_row_label(
    pid: u32,
    sample: &Sample,
    snap: &HashMap<u32, Sample>,
    deltas: &HashMap<u32, u64>,
    children: &HashMap<u32, Vec<u32>>,
    collapse: bool,
) -> (r: String)
    requires
        snap@.contains_key(pid),
        *sample == snap@[pid],
        collapse == label::collapse_root(*sample),
        finite_below(children@, pid),
        collapse ==> descendant_count(children@, pid) < usize::MAX && subtree_sum(children@, deltas@, pid)
            - amount(deltas@, pid) <= u64::MAX,
    ensures
        r@ == row_label(snap@, children@, pid),
{
    let pretty = label::pretty_cmdline(pid, sample, snap);
    if collapse {
        let (descendants, _) = count_descendants(pid, children, deltas);
        let mut out = String::new();
        out.append("[");
        out.append(sample.comm.as_str());
        out.append(", ");
        number::push_decimal(&mut out, (descendants + 1) as u64);
        out.append(" procs] ");
        out.append(pretty.as_str());
        out
    } else {
        pretty
    }
}

/// The label that the leaderboard and the live tree show for `pid`.
pub fn process_label(
    pid: u32,
    snap: &HashMap<u32, Sample>,
    deltas: &HashMap<u32, u64>,
    children: &HashMap<u32, Vec<u32>>,
) -> (r: String)
    requires
        snap@.contains_key(pid),
        finite_below(children@, pid),
        rows_drawable(snap@, deltas@, children@, pid),
    ensures
        r@ == row_label(snap@, children@, pid),
{
    let sample = match snap.get(&pid) {
        Some(s) => s,
        None => {
            assert(false);
            return String::new();
        },
    };
    proof {
        lemma_reaches_self(children@, pid);
    }
    let collapse = label::is_collapse_root(sample);
    make_row_label(pid, sample, snap, deltas, children, collapse)
}

fn rows_ranked(
    pid: u32,
    prefix: &str,
    is_last: bool,
    is_root: bool,
    snap: &HashMap<u32, Sample>,
    deltas: &HashMap<u32, u64>,
    subtree: &HashMap<u32, u64>,
    children: &HashMap<u32, Vec<u32>>,
    rows: &mut usize,
    max_rows: usize,
    out: &mut Vec<TreeRow>,
    Ghost(rank): Ghost<spec_fn(u32) -> nat>,
)
    requires
        rank_fits(children@, pid, rank),
        rows_drawable(snap@, deltas@, children@, pid),
    ensures
        forall|r2: spec_fn(u32) -> nat|
            #[trigger] rank_fits(children@, pid, r2) ==> rows_view(final(out)@) == rows_view(old(out)@)
                + node_rows(
                snap@,
                deltas@,
                children@,
                subtree@,
                r2,
                pid,
                prefix@,
                is_last,
                is_root,
                *old(rows) as nat,
                max_rows as nat,
            ),
        *final(rows) as int == *old(rows) + final(out)@.len() - old(out)@.len(),
    decreases rank(pid),
{
    if *rows >= max_rows {
        assert(rows_view(out@) =~= rows_view(out@) + Seq::empty());
        return;
    }
    let sample = match snap.get(&pid) {
        Some(s) => s,
        None => {
            assert(rows_view(out@) =~= rows_view(out@) + Seq::empty());
            return;
        },
    };
    let ghost out0 = out@;
    let ghost rows0 = *rows;
    proof {
        lemma_reaches_self(children@, pid);
    }
    let collapse = label::is_collapse_root(sample);
    let delta: u64 = if collapse {
        match subtree.get(&pid) {
            Some(x) => *x,
            None => 0,
        }
    } else {
        match deltas.get(&pid) {
            Some(x) => *x,
            None => 0,
        }
    };
    let mut indent = String::from_str(prefix);
    if is_root {
    } else if is_last {
        indent.append("└─ ");
    } else {
        indent.append("├─ ");
    }
    assert(indent@ =~= prefix@ + branch(is_last, is_root));
    let row_text = make_row_label(pid, sample, snap, deltas, children, collapse);
    let ghost row = (pid, delta as nat, indent@, row_text@);
    out.push(TreeRow { pid, delta, indent, label: row_text });
    *rows = *rows + 1;
    assert(rows_view(out@) =~= rows_view(out0).push(row));
    if collapse {
        assert forall|r2: spec_fn(u32) -> nat| #[trigger] rank_fits(children@, pid, r2) implies rows_view(out@)
            == rows_view(out0) + node_rows(snap@, deltas@, children@, subtree@, r2, pid, prefix@, is_last, is_root, rows0 as nat, max_rows as nat) by {
            assert(rows_view(out0).push(row) =~= rows_view(out0) + seq![row]);
        }
        return;
    }
    let mut cp = String::new();
    if is_root {
    } else if is_last {
        cp.append(prefix);
        cp.append("   ");
    } else {
        cp.append(prefix);
        cp.append("│  ");
    }
    assert(cp@ =~= child_prefix(prefix@, is_last, is_root));
    // Visible children: flatten any 0%-own-CPU descendants up so idle middlemen
    // don't show, and sort by subtree delta so the busiest path is at the top.
    let empty: Vec<u32> = Vec::new();
    let raw_kids = kids_of(children, pid, &empty);
    assert forall|i: int| 0 <= i < raw_kids@.len() implies finite_below(children@, #[trigger] raw_kids@[i]) by {
        assert(child_of(children@, pid, raw_kids@[i]));
        lemma_rank_fits_child(children@, pid, raw_kids@[i], rank);
    }
    let flat = flatten_visible(raw_kids.as_slice(), snap, deltas, children, subtree);
    let vis = order_busiest_first(&flat, subtree);
    let ghost vs = vis@;
    assert(vs == shown_children(snap@, deltas@, children@, subtree@, pid));
    let ghost after_row = out@;
    let ghost used1 = *rows;
    let n = vis.len();
    let mut i: usize = 0;
    while i < n && *rows < max_rows
        invariant
            0 <= i <= n,
            n == vs.len(),
            vs == vis@,
            vs == shown_children(snap@, deltas@, children@, subtree@, pid),
            rank_fits(children@, pid, rank),
            rows_drawable(snap@, deltas@, children@, pid),
            used1 as int == rows0 + 1,
            after_row.len() <= out@.len(),
            rows_view(out@).subrange(0, after_row.len() as int) == rows_view(after_row),
            *rows as int == used1 + out@.len() - after_row.len(),
            forall|r2: spec_fn(u32) -> nat|
                #[trigger] rank_fits(children@, pid, r2) ==> child_rows(snap@, deltas@, children@, subtree@, r2, vs, 0, cp@, used1 as nat, max_rows as nat, r2(pid))
                    == rows_view(out@).subrange(after_row.len() as int, out@.len() as int) + child_rows(
                    snap@,
                    deltas@,
                    children@,
                    subtree@,
                    r2,
                    vs,
                    i as int,
                    cp@,
                    *rows as nat,
                    max_rows as nat,
                    r2(pid),
                ),
        decreases n - i,
    {
        let child = vis[i];
        assert(vs.contains(child)) by {
            assert(vs[i as int] == child);
        }
        proof {
            lemma_shown_children_below(snap@, deltas@, children@, subtree@, pid, rank, child);
            lemma_rank_fits_reached(children@, pid, child, rank);
            lemma_drawable_reached(snap@, deltas@, children@, pid, child);
        }
        let ghost before = out@;
        let ghost rows_before = *rows;
        rows_ranked(
            child,
            cp.as_str(),
            i + 1 == n,
            false,
            snap,
            deltas,
            subtree,
            children,
            rows,
            max_rows,
            out,
            Ghost(rank),
        );
        proof {
            assert(rows_view(out@) == rows_view(before) + node_rows(snap@, deltas@, children@, subtree@, rank, child, cp@, i + 1 == n, false, rows_before as nat, max_rows as nat));
            assert(rows_view(out@).len() == out@.len());
            assert(rows_view(before).len() == before.len());
            assert(rows_view(out@).subrange(0, after_row.len() as int) =~= rows_view(after_row)) by {
                assert(rows_view(out@).subrange(0, after_row.len() as int) =~= rows_view(before).subrange(0, after_row.len() as int));
            }
            assert forall|r2: spec_fn(u32) -> nat| #[trigger] rank_fits(children@, pid, r2) implies child_rows(snap@, deltas@, children@, subtree@, r2, vs, 0, cp@, used1 as nat, max_rows as nat, r2(pid))
                == rows_view(out@).subrange(after_row.len() as int, out@.len() as int) + child_rows(
                snap@, deltas@, children@, subtree@, r2, vs, i + 1, cp@, *rows as nat, max_rows as nat, r2(pid)) by {
                lemma_shown_children_below(snap@, deltas@, children@, subtree@, pid, r2, child);
                lemma_rank_fits_reached(children@, pid, child, r2);
                let first = node_rows(snap@, deltas@, children@, subtree@, r2, child, cp@, i + 1 == n, false, rows_before as nat, max_rows as nat);
                assert(rows_view(out@) == rows_view(before) + first);
                assert(rows_view(out@).subrange(after_row.len() as int, out@.len() as int) =~= rows_view(before).subrange(after_row.len() as int, before.len() as int) + first);
                assert(rows_view(before).subrange(after_row.len() as int, before.len() as int) =~= rows_view(out@).subrange(after_row.len() as int, before.len() as int));
            }
        }
        i = i + 1;
    }
    proof {
        assert forall|r2: spec_fn(u32) -> nat| #[trigger] rank_fits(children@, pid, r2) implies rows_view(out@)
            == rows_view(out0) + node_rows(snap@, deltas@, children@, subtree@, r2, pid, prefix@, is_last, is_root, rows0 as nat, max_rows as nat) by {
            let tail = child_rows(snap@, deltas@, children@, subtree@, r2, vs, i as int, cp@, *rows as nat, max_rows as nat, r2(pid));
            assert(tail =~= Seq::empty());
            assert(rows_view(out@) =~= rows_view(out@).subrange(0, after_row.len() as int) + rows_view(out@).subrange(after_row.len() as int, out@.len() as int));
            assert(rows_view(after_row) =~= rows_view(out0) + seq![row]);
        }
    }
}

/// The rows of the live tree drawn for `pid` and what is shown below it,
/// appended to `out` while fewer than `max_rows` rows are taken; `rows`
/// counts the rows taken. (The rows are then printed with their CPU shares.)
pub fn tree_rows(
    pid: u32,
    prefix: &str,
    is_last: bool,
    is_root: bool,
    snap: &HashMap<u32, Sample>,
    deltas: &HashMap<u32, u64>,
    subtree: &HashMap<u32, u64>,
    children: &HashMap<u32, Vec<u32>>,
    rows: &mut usize,
    max_rows: usize,
    out: &mut Vec<TreeRow>,
)
    requires
        finite_below(children@, pid),
        rows_drawable(snap@, deltas@, children@, pid),
    ensures
        rows_view(final(out)@) == rows_view(old(out)@) + node_rows(
            snap@,
            deltas@,
            children@,
            subtree@,
            rank_of(children@, pid),
            pid,
            prefix@,
            is_last,
            is_root,
            *old(rows) as nat,
            max_rows as nat,
        ),
        *final(rows) as int == *old(rows) + final(out)@.len() - old(out)@.len(),
{
    let ghost rank = rank_of(children@, pid);
    rows_ranked(pid, prefix, is_last, is_root, snap, deltas, subtree, children, rows, max_rows, out, Ghost(rank));
}


// ---------------------------------------------------------------------------
// Laws of the live tree
// ---------------------------------------------------------------------------

/// The pids of `s` are in the order of `busier`: none is busier than one before it.
pub open spec fn busiest_first(load: Map<u32, u64>, s: Seq<u32>) -> bool {
    forall|i: int, j: int| 0 <= i < j < s.len() ==> !busier(load, #[trigger] s[j], #[trigger] s[i])
}

proof fn lemma_insert_keeps_order(load: Map<u32, u64>, x: u32, s: Seq<u32>)
    requires
        busiest_first(load, s),
    ensures
        busiest_first(load, insert_by_load(load, x, s)),
    decreases s.len(),
{
    if s.len() == 0 {
    } else if busier(load, s[0], x) {
        let t = insert_by_load(load, x, s.drop_first());
        assert(busiest_first(load, s.drop_first())) by {
            assert forall|i: int, j: int| 0 <= i < j < s.drop_first().len() implies !busier(
                load,
                #[trigger] s.drop_first()[j],
                #[trigger] s.drop_first()[i],
            ) by {
                assert(s.drop_first()[i] == s[i + 1] && s.drop_first()[j] == s[j + 1]);
            }
        }
        lemma_insert_keeps_order(load, x, s.drop_first());
        let r = seq![s[0]] + t;
        assert forall|i: int, j: int| 0 <= i < j < r.len() implies !busier(load, #[trigger] r[j], #[trigger] r[i]) by {
            if i == 0 {
                let y = r[j];
                assert(t[j - 1] == y);
                lemma_insert_contains(load, x, s.drop_first(), y);
                assert(t.contains(y));
                if y != x {
                    let k = choose|k: int| 0 <= k < s.drop_first().len() && s.drop_first()[k] == y;
                    assert(s[k + 1] == y);
                }
            } else {
                assert(r[i] == t[i - 1] && r[j] == t[j - 1]);
            }
        }
    } else {
        let r = seq![x] + s;
        assert forall|i: int, j: int| 0 <= i < j < r.len() implies !busier(load, #[trigger] r[j], #[trigger] r[i]) by {
            if i == 0 {
                assert(r[j] == s[j - 1]);
                if j - 1 > 0 {
                    assert(!busier(load, s[j - 1], s[0]));
                }
            } else {
                assert(r[i] == s[i - 1] && r[j] == s[j - 1]);
            }
        }
    }
}

/// Law: siblings are shown busiest first (most CPU in their subtree; ties
/// by pid), and ordering them keeps exactly the pids there were.
pub proof fn lemma_sort_by_load(load: Map<u32, u64>, s: Seq<u32>)
    ensures
        busiest_first(load, sort_by_load(load, s)),
        sort_by_load(load, s).len() == s.len(),
        forall|y: u32| sort_by_load(load, s).contains(y) <==> s.contains(y),
    decreases s.len(),
{
    if s.len() > 0 {
        lemma_sort_by_load(load, s.drop_last());
        lemma_insert_keeps_order(load, s.last(), sort_by_load(load, s.drop_last()));
        lemma_insert_len(load, s.last(), sort_by_load(load, s.drop_last()));
    }
    assert forall|y: u32| sort_by_load(load, s).contains(y) <==> s.contains(y) by {
        lemma_sort_contains(load, s, y);
    }
}

proof fn lemma_insert_len(load: Map<u32, u64>, x: u32, s: Seq<u32>)
    ensures
        insert_by_load(load, x, s).len() == s.len() + 1,
    decreases s.len(),
{
    if s.len() > 0 && busier(load, s[0], x) {
        lemma_insert_len(load, x, s.drop_first());
    }
}

/// What makes a process worth a line of its own: it is in the snapshot,
/// something in its subtree used CPU, and it used CPU itself or it is a
/// browser's main process.
pub open spec fn worth_showing(
    snap: Map<u32, Sample>,
    deltas: Map<u32, u64>,
    subtree: Map<u32, u64>,
    x: u32,
) -> bool {
    &&& snap.contains_key(x)
    &&& amount(subtree, x) > 0
    &&& (amount(deltas, x) > 0 || label::collapse_root(snap[x]))
}

proof fn lemma_visible_node_worth(
    snap: Map<u32, Sample>,
    deltas: Map<u32, u64>,
    children: Map<u32, Vec<u32>>,
    subtree: Map<u32, u64>,
    rank: spec_fn(u32) -> nat,
    p: u32,
)
    ensures
        forall|x: u32|
            visible_node(snap, deltas, children, subtree, rank, p).contains(x) ==> worth_showing(
                snap,
                deltas,
                subtree,
                x,
            ),
    decreases rank(p), 1nat, 0nat,
{
    if amount(subtree, p) == 0 || !snap.contains_key(p) {
    } else if amount(deltas, p) == 0 && !label::collapse_root(snap[p]) {
        lemma_visible_forest_worth(snap, deltas, children, subtree, rank, kids(children, p), rank(p));
    } else {
        assert forall|x: u32| visible_node(snap, deltas, children, subtree, rank, p).contains(x) implies worth_showing(snap, deltas, subtree, x) by {
            assert(seq![p][0] == p);
        }
    }
}

proof fn lemma_visible_forest_worth(
    snap: Map<u32, Sample>,
    deltas: Map<u32, u64>,
    children: Map<u32, Vec<u32>>,
    subtree: Map<u32, u64>,
    rank: spec_fn(u32) -> nat,
    ps: Seq<u32>,
    bound: nat,
)
    ensures
        forall|x: u32|
            visible_forest(snap, deltas, children, subtree, rank, ps, bound).contains(x) ==> worth_showing(
                snap,
                deltas,
                subtree,
                x,
            ),
    decreases bound, 0nat, ps.len(),
{
    if ps.len() > 0 {
        lemma_visible_forest_worth(snap, deltas, children, subtree, rank, ps.drop_last(), bound);
        let left = visible_forest(snap, deltas, children, subtree, rank, ps.drop_last(), bound);
        if rank(ps.last()) < bound {
            lemma_visible_node_worth(snap, deltas, children, subtree, rank, ps.last());
        }
        let right = if rank(ps.last()) < bound {
            visible_node(snap, deltas, children, subtree, rank, ps.last())
        } else {
            Seq::empty()
        };
        assert forall|x: u32| (left + right).contains(x) implies worth_showing(snap, deltas, subtree, x) by {
            let i = choose|i: int| 0 <= i < (left + right).len() && (left + right)[i] == x;
            if i < left.len() {
                assert(left[i] == x);
            } else {
                assert(right[i - left.len()] == x);
            }
        }
    }
}

/// Law: a process of the snapshot that used CPU itself, in a subtree that
/// used CPU, is shown as exactly itself: its descendants are drawn beneath
/// it, never beside it.
pub proof fn lemma_busy_process_shown_alone(
    snap: Map<u32, Sample>,
    deltas: Map<u32, u64>,
    children: Map<u32, Vec<u32>>,
    subtree: Map<u32, u64>,
    p: u32,
)
    requires
        snap.contains_key(p),
        amount(deltas, p) > 0,
        amount(subtree, p) > 0,
    ensures
        visible_from(snap, deltas, children, subtree, p) == seq![p],
{
}

/// Law: where every candidate is in the snapshot and used CPU itself (in a
/// subtree that used CPU), the processes shown are the candidates
/// themselves, in their order.
pub proof fn lemma_busy_candidates_shown_as_they_are(
    snap: Map<u32, Sample>,
    deltas: Map<u32, u64>,
    children: Map<u32, Vec<u32>>,
    subtree: Map<u32, u64>,
    ps: Seq<u32>,
)
    requires
        forall|i: int|
            0 <= i < ps.len() ==> snap.contains_key(#[trigger] ps[i]) && amount(deltas, ps[i]) > 0
                && amount(subtree, ps[i]) > 0,
    ensures
        visible_all(snap, deltas, children, subtree, ps) == ps,
    decreases ps.len(),
{
    if ps.len() > 0 {
        lemma_busy_candidates_shown_as_they_are(snap, deltas, children, subtree, ps.drop_last());
        lemma_busy_process_shown_alone(snap, deltas, children, subtree, ps.last());
        assert(ps.drop_last() + seq![ps.last()] =~= ps);
    } else {
        assert(ps =~= Seq::<u32>::empty());
    }
}

/// No process is listed twice under one parent, and no process lies below
/// two different children of one parent.
pub open spec fn siblings_apart(children: Map<u32, Vec<u32>>) -> bool {
    &&& forall|p: u32| #[trigger] kids(children, p).no_duplicates()
    &&& forall|p: u32, c1: u32, c2: u32, x: u32|
        #![trigger child_of(children, p, c1), child_of(children, p, c2), reaches(children, c1, x), reaches(children, c2, x)]
        child_of(children, p, c1) && child_of(children, p, c2) && reaches(children, c1, x) && reaches(
            children,
            c2,
            x,
        ) ==> c1 == c2
}

/// What is shown in place of the first `j` children of `p` lies below one of them.
proof fn lemma_visible_forest_from_kid(
    snap: Map<u32, Sample>,
    deltas: Map<u32, u64>,
    children: Map<u32, Vec<u32>>,
    subtree: Map<u32, u64>,
    rank: spec_fn(u32) -> nat,
    p: u32,
    j: int,
    x: u32,
)
    requires
        rank_fits(children, p, rank),
        0 <= j <= kids(children, p).len(),
        visible_forest(snap, deltas, children, subtree, rank, kids(children, p).take(j), rank(p)).contains(x),
    ensures
        exists|i: int| 0 <= i < j && #[trigger] reaches(children, kids(children, p)[i], x),
    decreases j,
{
    let ks = kids(children, p);
    if j == 0 {
        assert(ks.take(0) =~= Seq::<u32>::empty());
        assert(false);
    } else {
        let c = ks[j - 1];
        assert(ks.take(j).drop_last() =~= ks.take(j - 1));
        assert(ks.take(j).last() == c);
        assert(child_of(children, p, c));
        lemma_rank_fits_child(children, p, c, rank);
        let left = visible_forest(snap, deltas, children, subtree, rank, ks.take(j - 1), rank(p));
        let right = visible_node(snap, deltas, children, subtree, rank, c);
        assert(visible_forest(snap, deltas, children, subtree, rank, ks.take(j), rank(p)) == left + right);
        let i = choose|i: int| 0 <= i < (left + right).len() && (left + right)[i] == x;
        if i < left.len() {
            assert(left[i] == x);
            lemma_visible_forest_from_kid(snap, deltas, children, subtree, rank, p, j - 1, x);
            let k = choose|k: int| 0 <= k < j - 1 && #[trigger] reaches(children, ks[k], x);
            assert(reaches(children, ks[k], x));
        } else {
            assert(right[i - left.len()] == x);
            lemma_visible_node_reached(snap, deltas, children, subtree, rank, c);
            assert(reaches(children, ks[j - 1], x));
        }
    }
}

/// Where siblings lie apart, what is shown in place of a process holds no duplicates.
proof fn lemma_visible_node_no_dup(
    snap: Map<u32, Sample>,
    deltas: Map<u32, u64>,
    children: Map<u32, Vec<u32>>,
    subtree: Map<u32, u64>,
    rank: spec_fn(u32) -> nat,
    p: u32,
)
    requires
        rank_fits(children, p, rank),
        siblings_apart(children),
    ensures
        visible_node(snap, deltas, children, subtree, rank, p).no_duplicates(),
    decreases rank(p), 1nat, 0nat,
{
    if amount(subtree, p) == 0 || !snap.contains_key(p) {
    } else if amount(deltas, p) == 0 && !label::collapse_root(snap[p]) {
        let ks = kids(children, p);
        lemma_visible_forest_no_dup(snap, deltas, children, subtree, rank, p, ks.len() as int);
        assert(ks.take(ks.len() as int) =~= ks);
    } else {
    }
}

/// Where siblings lie apart, what is shown in place of the first `j`
/// children of `p` holds no duplicates.
proof fn lemma_visible_forest_no_dup(
    snap: Map<u32, Sample>,
    deltas: Map<u32, u64>,
    children: Map<u32, Vec<u32>>,
    subtree: Map<u32, u64>,
    rank: spec_fn(u32) -> nat,
    p: u32,
    j: int,
)
    requires
        rank_fits(children, p, rank),
        siblings_apart(children),
        0 <= j <= kids(children, p).len(),
    ensures
        visible_forest(snap, deltas, children, subtree, rank, kids(children, p).take(j), rank(p)).no_duplicates(),
    decreases rank(p), 0nat, j,
{
    let ks = kids(children, p);
    if j == 0 {
        assert(ks.take(0) =~= Seq::<u32>::empty());
    } else {
        let c = ks[j - 1];
        assert(ks.take(j).drop_last() =~= ks.take(j - 1));
        assert(ks.take(j).last() == c);
        assert(child_of(children, p, c));
        lemma_rank_fits_child(children, p, c, rank);
        lemma_visible_forest_no_dup(snap, deltas, children, subtree, rank, p, j - 1);
        lemma_visible_node_no_dup(snap, deltas, children, subtree, rank, c);
        lemma_visible_node_reached(snap, deltas, children, subtree, rank, c);
        let left = visible_forest(snap, deltas, children, subtree, rank, ks.take(j - 1), rank(p));
        let right = visible_node(snap, deltas, children, subtree, rank, c);
        assert(visible_forest(snap, deltas, children, subtree, rank, ks.take(j), rank(p)) == left + right);
        assert forall|a: int, b: int| 0 <= a < left.len() && 0 <= b < right.len() implies left[a] != right[b] by {
            let x = left[a];
            assert(left.contains(x));
            lemma_visible_forest_from_kid(snap, deltas, children, subtree, rank, p, j - 1, x);
            let i = choose|i: int| 0 <= i < j - 1 && #[trigger] reaches(children, ks[i], x);
            if x == right[b] {
                assert(right.contains(x));
                assert(reaches(children, c, x));
                assert(child_of(children, p, ks[i]));
                assert(ks.no_duplicates());
                assert(ks[i] != ks[j - 1]);
            }
        }
        vstd::seq_lib::lemma_no_dup_in_concat(left, right);
    }
}

/// Law: where siblings lie apart and the candidates' subtrees are disjoint,
/// no process is shown twice.
pub proof fn lemma_shown_once(
    snap: Map<u32, Sample>,
    deltas: Map<u32, u64>,
    children: Map<u32, Vec<u32>>,
    subtree: Map<u32, u64>,
    ps: Seq<u32>,
)
    requires
        siblings_apart(children),
        forall|i: int| 0 <= i < ps.len() ==> finite_below(children, #[trigger] ps[i]),
        forall|i: int, j: int, x: u32|
            0 <= i < ps.len() && 0 <= j < ps.len() && i != j && #[trigger] reaches(children, ps[i], x)
                ==> !#[trigger] reaches(children, ps[j], x),
    ensures
        visible_all(snap, deltas, children, subtree, ps).no_duplicates(),
    decreases ps.len(),
{
    if ps.len() > 0 {
        let rest = ps.drop_last();
        let n = ps.len() - 1;
        let q = ps[n];
        assert forall|i: int, j: int, x: u32|
            0 <= i < rest.len() && 0 <= j < rest.len() && i != j && #[trigger] reaches(children, rest[i], x)
                implies !#[trigger] reaches(children, rest[j], x) by {
            assert(rest[i] == ps[i] && rest[j] == ps[j]);
        }
        lemma_shown_once(snap, deltas, children, subtree, rest);
        assert(finite_below(children, ps[n]));
        let rq = rank_of(children, q);
        lemma_visible_node_no_dup(snap, deltas, children, subtree, rq, q);
        lemma_visible_node_reached(snap, deltas, children, subtree, rq, q);
        let left = visible_all(snap, deltas, children, subtree, rest);
        let right = visible_from(snap, deltas, children, subtree, q);
        assert forall|a: int, b: int| 0 <= a < left.len() && 0 <= b < right.len() implies left[a] != right[b] by {
            let x = left[a];
            assert(left.contains(x));
            lemma_visible_all_member(snap, deltas, children, subtree, rest, x);
            let k = choose|k: int| 0 <= k < rest.len() && visible_from(snap, deltas, children, subtree, #[trigger] rest[k]).contains(x);
            assert(finite_below(children, ps[k]));
            lemma_visible_node_reached(snap, deltas, children, subtree, rank_of(children, rest[k]), rest[k]);
            if x == right[b] {
                assert(right.contains(x));
                assert(reaches(children, q, x));
                assert(reaches(children, ps[k], x));
                assert(!reaches(children, ps[n], x));
            }
        }
        vstd::seq_lib::lemma_no_dup_in_concat(left, right);
    }
}

/// Law: the processes shown in place of a list of candidates are each worth
/// a line of their own (idle middlemen and dead subtrees are hidden), and
/// each lies below one of the candidates.
pub proof fn lemma_flatten_shows_busy_descendants(
    snap: Map<u32, Sample>,
    deltas: Map<u32, u64>,
    children: Map<u32, Vec<u32>>,
    subtree: Map<u32, u64>,
    candidates: Seq<u32>,
    x: u32,
)
    requires
        forall|i: int| 0 <= i < candidates.len() ==> finite_below(children, #[trigger] candidates[i]),
        visible_all(snap, deltas, children, subtree, candidates).contains(x),
    ensures
        worth_showing(snap, deltas, subtree, x),
        exists|k: int| 0 <= k < candidates.len() && reaches(children, #[trigger] candidates[k], x),
{
    lemma_visible_all_member(snap, deltas, children, subtree, candidates, x);
    let k = choose|k: int|
        0 <= k < candidates.len() && visible_from(snap, deltas, children, subtree, #[trigger] candidates[k]).contains(x);
    let c = candidates[k];
    assert(finite_below(children, c));
    let rc = rank_of(children, c);
    lemma_visible_node_worth(snap, deltas, children, subtree, rc, c);
    lemma_visible_node_reached(snap, deltas, children, subtree, rc, c);
}

/// Law: drawing never takes more rows than the budget allows.
pub proof fn lemma_node_rows_within_budget(
    snap: Map<u32, Sample>,
    deltas: Map<u32, u64>,
    children: Map<u32, Vec<u32>>,
    subtree: Map<u32, u64>,
    rank: spec_fn(u32) -> nat,
    pid: u32,
    prefix: Seq<char>,
    is_last: bool,
    is_root: bool,
    used: nat,
    max: nat,
)
    ensures
        used <= max ==> used + node_rows(
            snap,
            deltas,
            children,
            subtree,
            rank,
            pid,
            prefix,
            is_last,
            is_root,
            used,
            max,
        ).len() <= max,
    decreases rank(pid), 1nat, 0nat,
{
    if used < max && snap.contains_key(pid) && !label::collapse_root(snap[pid]) {
        lemma_child_rows_within_budget(
            snap,
            deltas,
            children,
            subtree,
            rank,
            shown_children(snap, deltas, children, subtree, pid),
            0,
            child_prefix(prefix, is_last, is_root),
            used + 1,
            max,
            rank(pid),
        );
    }
}

/// The rows of shown children stay within the budget too.
pub proof fn lemma_child_rows_within_budget(
    snap: Map<u32, Sample>,
    deltas: Map<u32, u64>,
    children: Map<u32, Vec<u32>>,
    subtree: Map<u32, u64>,
    rank: spec_fn(u32) -> nat,
    vis: Seq<u32>,
    i: int,
    prefix: Seq<char>,
    used: nat,
    max: nat,
    bound: nat,
)
    ensures
        used <= max ==> used + child_rows(
            snap,
            deltas,
            children,
            subtree,
            rank,
            vis,
            i,
            prefix,
            used,
            max,
            bound,
        ).len() <= max,
    decreases bound, 0nat, vis.len() - i,
{
    if 0 <= i < vis.len() && used < max {
        let first = if rank(vis[i]) < bound {
            node_rows(snap, deltas, children, subtree, rank, vis[i], prefix, i + 1 == vis.len(), false, used, max)
        } else {
            Seq::empty()
        };
        if rank(vis[i]) < bound {
            lemma_node_rows_within_budget(snap, deltas, children, subtree, rank, vis[i], prefix, i + 1 == vis.len(), false, used, max);
        }
        lemma_child_rows_within_budget(snap, deltas, children, subtree, rank, vis, i + 1, prefix, used + first.len(), max, bound);
    }
}

} // verus!
