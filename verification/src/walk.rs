//! Summing the CPU time of a live process tree, one process at a time.
//!
//! The walk alternates with reads of `/proc`: it names the next process to
//! read, and is told that process's jiffies and children. Answered from a
//! fixed finite tree, it ends with the subtree's total (see the laws below).
use vstd::prelude::*;
use std::collections::HashMap;
use crate::tree;

verus! {

/// A depth-first walk that sums the jiffies of a process and its descendants.
pub struct TreeWalk {
    total: u64,
    stack: Vec<u32>,
}

impl TreeWalk {
    /// The jiffies counted so far.
    pub closed spec fn counted(&self) -> nat {
        self.total as nat
    }

    /// The processes still to visit (the last one next).
    pub closed spec fn pending(&self) -> Seq<u32> {
        self.stack@
    }

    /// Starts at the root, given its jiffies (0 where they could not be
    /// read) and its children.
    pub fn start(root_jiffies: u64, children: Vec<u32>) -> (r: TreeWalk)
        ensures
            r.counted() == root_jiffies,
            r.pending() == children@,
    {
        TreeWalk { total: root_jiffies, stack: children }
    }

    /// The next process to read: the last one pending, taken off; none when
    /// the walk is over.
    pub fn next_pid(&mut self) -> (r: Option<u32>)
        ensures
            final(self).counted() == old(self).counted(),
            old(self).pending().len() == 0 ==> r is None && final(self).pending() == old(
                self,
            ).pending(),
            old(self).pending().len() > 0 ==> r == Some(old(self).pending().last())
                && final(self).pending() == old(self).pending().drop_last(),
    {
        self.stack.pop()
    }

    /// Counts the jiffies of the process just read (0 where they could not
    /// be read) and queues its children.
    pub fn visit(&mut self, jiffies: u64, children: Vec<u32>)
        requires
            old(self).counted() + jiffies <= u64::MAX,
        ensures
            final(self).counted() == old(self).counted() + jiffies,
            final(self).pending() == old(self).pending() + children@,
    {
        self.total = self.total + jiffies;
        let mut more = children;
        self.stack.append(&mut more);
    }

    /// The jiffies counted so far; the subtree's total once the walk is over.
    pub fn total(&self) -> (r: u64)
        ensures
            r == self.counted(),
    {
        self.total
    }
}

// ---------------------------------------------------------------------------
// The walk over a fixed tree
// ---------------------------------------------------------------------------

/// The total weight of the subtrees of every pid in `ps`.
pub open spec fn pending_total(
    children: Map<u32, Vec<u32>>,
    weight: spec_fn(u32) -> nat,
    rank: spec_fn(u32) -> nat,
    ps: Seq<u32>,
) -> nat
    decreases ps.len(),
{
    if ps.len() == 0 {
        0
    } else {
        pending_total(children, weight, rank, ps.drop_last()) + tree::tree_total(
            children,
            weight,
            rank,
            ps.last(),
        )
    }
}

/// The walk's state is on track to sum the tree below `root`: all pending
/// processes lie below it, and what is counted plus the subtrees still
/// pending make up the whole.
pub open spec fn walk_on_track(
    children: Map<u32, Vec<u32>>,
    weight: spec_fn(u32) -> nat,
    root: u32,
    counted: nat,
    pending: Seq<u32>,
) -> bool {
    let rank = tree::rank_of(children, root);
    &&& forall|i: int|
        0 <= i < pending.len() ==> #[trigger] tree::reaches(children, root, pending[i])
            && pending[i] != root
    &&& counted + pending_total(children, weight, rank, pending) == tree::tree_total(
        children,
        weight,
        rank,
        root,
    )
}

proof fn lemma_pending_append(
    children: Map<u32, Vec<u32>>,
    weight: spec_fn(u32) -> nat,
    rank: spec_fn(u32) -> nat,
    a: Seq<u32>,
    b: Seq<u32>,
)
    ensures
        pending_total(children, weight, rank, a + b) == pending_total(children, weight, rank, a)
            + pending_total(children, weight, rank, b),
    decreases b.len(),
{
    if b.len() == 0 {
        assert(a + b =~= a);
    } else {
        lemma_pending_append(children, weight, rank, a, b.drop_last());
        assert((a + b).drop_last() =~= a + b.drop_last());
    }
}

/// Over children that all rank below `bound`, the forest total is the plain sum.
proof fn lemma_forest_is_pending(
    children: Map<u32, Vec<u32>>,
    weight: spec_fn(u32) -> nat,
    rank: spec_fn(u32) -> nat,
    ps: Seq<u32>,
    bound: nat,
)
    requires
        forall|i: int| 0 <= i < ps.len() ==> rank(#[trigger] ps[i]) < bound,
    ensures
        tree::forest_total(children, weight, rank, ps, bound) == pending_total(
            children,
            weight,
            rank,
            ps,
        ),
    decreases ps.len(),
{
    if ps.len() > 0 {
        assert(rank(ps[ps.len() - 1]) < bound);
        lemma_forest_is_pending(children, weight, rank, ps.drop_last(), bound);
    }
}

/// Law: a walk started from the root's own weight and children is on track.
pub proof fn lemma_walk_starts_on_track(
    children: Map<u32, Vec<u32>>,
    weight: spec_fn(u32) -> nat,
    root: u32,
)
    requires
        tree::finite_below(children, root),
    ensures
        walk_on_track(children, weight, root, weight(root), tree::kids(children, root)),
{
    let rank = tree::rank_of(children, root);
    let ks = tree::kids(children, root);
    assert forall|i: int| 0 <= i < ks.len() implies #[trigger] tree::reaches(children, root, ks[i])
        && ks[i] != root by {
        tree::lemma_reaches_self(children, root);
        assert(tree::child_of(children, root, ks[i]));
        tree::lemma_reaches_child(children, root, root, ks[i]);
        tree::lemma_rank_fits_child(children, root, ks[i], rank);
    }
    assert forall|i: int| 0 <= i < ks.len() implies rank(#[trigger] ks[i]) < rank(root) by {
        assert(tree::child_of(children, root, ks[i]));
        tree::lemma_rank_fits_child(children, root, ks[i], rank);
    }
    lemma_forest_is_pending(children, weight, rank, ks, rank(root));
}

/// Law: visiting the next pending process, answered with its own weight and
/// children, keeps the walk on track.
pub proof fn lemma_walk_step_on_track(
    children: Map<u32, Vec<u32>>,
    weight: spec_fn(u32) -> nat,
    root: u32,
    counted: nat,
    pending: Seq<u32>,
)
    requires
        tree::finite_below(children, root),
        walk_on_track(children, weight, root, counted, pending),
        pending.len() > 0,
    ensures
        walk_on_track(
            children,
            weight,
            root,
            counted + weight(pending.last()),
            pending.drop_last() + tree::kids(children, pending.last()),
        ),
{
    let rank = tree::rank_of(children, root);
    let p = pending.last();
    let ks = tree::kids(children, p);
    let next = pending.drop_last() + ks;
    assert(tree::reaches(children, root, pending[pending.len() - 1]));
    tree::lemma_rank_fits_reached(children, root, p, rank);
    assert forall|i: int| 0 <= i < ks.len() implies rank(#[trigger] ks[i]) < rank(p) by {
        assert(tree::child_of(children, p, ks[i]));
        tree::lemma_rank_fits_child(children, p, ks[i], rank);
    }
    lemma_forest_is_pending(children, weight, rank, ks, rank(p));
    lemma_pending_append(children, weight, rank, pending.drop_last(), ks);
    assert(pending_total(children, weight, rank, pending) == pending_total(
        children,
        weight,
        rank,
        pending.drop_last(),
    ) + tree::tree_total(children, weight, rank, p));
    assert forall|i: int| 0 <= i < next.len() implies #[trigger] tree::reaches(children, root, next[i])
        && next[i] != root by {
        if i < pending.len() - 1 {
            assert(next[i] == pending[i]);
        } else {
            let c = ks[i - (pending.len() - 1)];
            assert(next[i] == c);
            assert(tree::child_of(children, p, c));
            tree::lemma_reaches_child(children, root, p, c);
            tree::lemma_rank_fits_child(children, p, c, rank);
            tree::lemma_reaches_self(children, root);
            if c == root {
                tree::lemma_rank_fits_reached(children, root, p, rank);
            }
        }
    }
}

/// Law: a walk on track with nothing left pending has counted the whole subtree.
pub proof fn lemma_walk_done(
    children: Map<u32, Vec<u32>>,
    weight: spec_fn(u32) -> nat,
    root: u32,
    counted: nat,
    pending: Seq<u32>,
)
    requires
        walk_on_track(children, weight, root, counted, pending),
        pending.len() == 0,
    ensures
        counted == tree::tree_total(children, weight, tree::rank_of(children, root), root),
{
}

/// Law: the total left to count strictly drops with each visit, so a walk
/// answered from a finite tree ends.
pub proof fn lemma_walk_step_shrinks(
    children: Map<u32, Vec<u32>>,
    root: u32,
    pending: Seq<u32>,
)
    requires
        tree::finite_below(children, root),
        forall|i: int| 0 <= i < pending.len() ==> #[trigger] tree::reaches(children, root, pending[i]),
        pending.len() > 0,
    ensures
        pending_total(
            children,
            |q: u32| 1nat,
            tree::rank_of(children, root),
            pending.drop_last() + tree::kids(children, pending.last()),
        ) < pending_total(children, |q: u32| 1nat, tree::rank_of(children, root), pending),
{
    let rank = tree::rank_of(children, root);
    let one = |q: u32| 1nat;
    let p = pending.last();
    let ks = tree::kids(children, p);
    assert(tree::reaches(children, root, pending[pending.len() - 1]));
    tree::lemma_rank_fits_reached(children, root, p, rank);
    assert forall|i: int| 0 <= i < ks.len() implies rank(#[trigger] ks[i]) < rank(p) by {
        assert(tree::child_of(children, p, ks[i]));
        tree::lemma_rank_fits_child(children, p, ks[i], rank);
    }
    lemma_forest_is_pending(children, one, rank, ks, rank(p));
    lemma_pending_append(children, one, rank, pending.drop_last(), ks);
}


// ---------------------------------------------------------------------------
// The walk over known tables
// ---------------------------------------------------------------------------

/// A copy of a list of pids.
fn copy_pids(v: &Vec<u32>) -> (r: Vec<u32>)
    ensures
        r@ == v@,
{
    let mut out: Vec<u32> = Vec::new();
    let mut i: usize = 0;
    while i < v.len()
        invariant
            0 <= i <= v@.len(),
            out@ == v@.take(i as int),
        decreases v@.len() - i,
    {
        out.push(v[i]);
        assert(v@.take(i + 1) =~= v@.take(i as int).push(v@[i as int]));
        i = i + 1;
    }
    assert(v@.take(v@.len() as int) =~= v@);
    out
}

/// The children that the table lists for `pid`, copied.
fn children_in(children: &HashMap<u32, Vec<u32>>, pid: u32) -> (r: Vec<u32>)
    ensures
        r@ == tree::kids(children@, pid),
{
    match children.get(&pid) {
        Some(k) => copy_pids(k),
        None => Vec::new(),
    }
}

/// Sum CPU jiffies for a process and all its descendants, walking the tree
/// depth first as it is read: `jiffies` holds what each process's stat
/// file gives (a process without an entry counts 0) and `children` what
/// its children file lists.
pub fn sum_tree_jiffies(
    root: u32,
    jiffies: &HashMap<u32, u64>,
    children: &HashMap<u32, Vec<u32>>,
) -> (r: u64)
    requires
        tree::finite_below(children@, root),
        tree::subtree_sum(children@, jiffies@, root) <= u64::MAX,
    ensures
        r == tree::subtree_sum(children@, jiffies@, root),
{
    let ghost w = |q: u32| tree::amount(jiffies@, q);
    let ghost one = |q: u32| 1nat;
    let ghost rank = tree::rank_of(children@, root);
    let j: u64 = match jiffies.get(&root) {
        Some(x) => *x,
        None => 0,
    };
    let mut walk = TreeWalk::start(j, children_in(children, root));
    proof {
        lemma_walk_starts_on_track(children@, w, root);
    }
    loop
        invariant
            tree::finite_below(children@, root),
            rank == tree::rank_of(children@, root),
            w == (|q: u32| tree::amount(jiffies@, q)),
            one == (|q: u32| 1nat),
            tree::tree_total(children@, w, rank, root) <= u64::MAX,
            walk_on_track(children@, w, root, walk.counted(), walk.pending()),
        ensures
            walk.counted() == tree::tree_total(children@, w, rank, root),
        decreases pending_total(children@, one, rank, walk.pending()),
    {
        let ghost before = walk.pending();
        let ghost counted = walk.counted();
        match walk.next_pid() {
            None => {
                proof {
                    lemma_walk_done(children@, w, root, counted, before);
                }
                break;
            },
            Some(pid) => {
                let d: u64 = match jiffies.get(&pid) {
                    Some(x) => *x,
                    None => 0,
                };
                proof {
                    assert(before[before.len() - 1] == pid);
                    assert(pending_total(children@, w, rank, before) == pending_total(children@, w, rank, before.drop_last())
                        + tree::tree_total(children@, w, rank, pid));
                    assert(tree::tree_total(children@, w, rank, pid) >= w(pid));
                    lemma_walk_step_on_track(children@, w, root, counted, before);
                    lemma_walk_step_shrinks(children@, root, before);
                }
                walk.visit(d, children_in(children, pid));
            },
        }
    }
    walk.total()
}

} // verus!
