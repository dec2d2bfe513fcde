use lib::frame::{
    children_map, folded_into, frame_deltas, keys_of, label_budget, leaderboard, root_pids,
    subtree_map, total_delta, tree_budget, truncate_label, update_cumulative,
};
use lib::procfs::Sample;
use lib::tree::{count_descendants, flatten_visible, order_busiest_first, subtree_delta, tree_rows, TreeRow};
use lib::walk::{sum_tree_jiffies, TreeWalk};
use std::collections::HashMap;

fn sample(comm: &str, args: &[&str], ppid: u32, jiffies: u64) -> Sample {
    Sample {
        comm: comm.to_string(),
        cmdline_args: args.iter().map(|a| a.to_string()).collect(),
        ppid,
        cpu_jiffies: jiffies,
        cwd: None,
        io_bytes: None,
    }
}

fn children_of(pairs: &[(u32, &[u32])]) -> HashMap<u32, Vec<u32>> {
    pairs.iter().map(|(p, ks)| (*p, ks.to_vec())).collect()
}

fn amounts(pairs: &[(u32, u64)]) -> HashMap<u32, u64> {
    pairs.iter().copied().collect()
}

#[test]
fn sum_tree_jiffies_pid1() {
    let jiffies = amounts(&[(1, 120), (2, 30), (3, 0), (4, 7)]);
    let children = children_of(&[(1, &[2, 3]), (3, &[4])]);
    assert!(sum_tree_jiffies(1, &jiffies, &children) > 0);
    assert_eq!(sum_tree_jiffies(1, &jiffies, &children), 157);
    assert_eq!(sum_tree_jiffies(3, &jiffies, &children), 7);
    assert_eq!(sum_tree_jiffies(99, &jiffies, &children), 0);
}

#[test]
fn tree_walk_visits_depth_first() {
    let mut walk = TreeWalk::start(5, vec![2, 3]);
    assert_eq!(walk.next_pid(), Some(3));
    walk.visit(10, vec![4]);
    assert_eq!(walk.next_pid(), Some(4));
    walk.visit(1, vec![]);
    assert_eq!(walk.next_pid(), Some(2));
    walk.visit(0, vec![]);
    assert_eq!(walk.next_pid(), None);
    assert_eq!(walk.total(), 16);
}

#[test]
fn subtree_and_descendants() {
    let deltas = amounts(&[(1, 1), (2, 2), (3, 3), (4, 4)]);
    let children = children_of(&[(1, &[2, 3]), (3, &[4])]);
    assert_eq!(subtree_delta(1, &deltas, &children), 10);
    assert_eq!(subtree_delta(3, &deltas, &children), 7);
    assert_eq!(subtree_delta(5, &deltas, &children), 0);
    assert_eq!(count_descendants(1, &children, &deltas), (3, 9));
    assert_eq!(count_descendants(4, &children, &deltas), (0, 0));
}

fn forest() -> (HashMap<u32, Sample>, HashMap<u32, u64>, HashMap<u32, Vec<u32>>) {
    let mut snap = HashMap::new();
    snap.insert(1, sample("init", &["/sbin/init"], 0, 0));
    snap.insert(10, sample("bash", &["bash"], 1, 0));
    snap.insert(11, sample("node", &["node", "app.js"], 10, 0));
    snap.insert(12, sample("idle", &["idle"], 10, 0));
    snap.insert(20, sample("firefox", &["firefox"], 1, 0));
    snap.insert(21, sample("firefox", &["firefox", "-contentproc"], 20, 0));
    snap.insert(30, sample("top", &["top"], 1, 0));
    let deltas = amounts(&[(1, 0), (10, 0), (11, 8), (12, 0), (20, 0), (21, 5), (30, 5)]);
    let children = children_map(&snap);
    (snap, deltas, children)
}

#[test]
fn idle_middlemen_are_flattened() {
    let (snap, deltas, children) = forest();
    let subtree = subtree_map(&snap, &deltas, &children);
    assert_eq!(subtree[&1], 18);
    assert_eq!(subtree[&10], 8);
    let mut roots = flatten_visible(&[1], &snap, &deltas, &children, &subtree);
    roots.sort();
    assert_eq!(roots, vec![11, 20, 30]);
    assert!(flatten_visible(&[12], &snap, &deltas, &children, &subtree).is_empty());
    assert!(flatten_visible(&[999], &snap, &deltas, &children, &subtree).is_empty());
    assert_eq!(order_busiest_first(&vec![30, 20, 11], &subtree), vec![11, 20, 30]);
}

#[test]
fn live_tree_rows() {
    let (snap, deltas, children) = forest();
    let subtree = subtree_map(&snap, &deltas, &children);
    let mut rows = 0usize;
    let mut out: Vec<TreeRow> = Vec::new();
    tree_rows(1, "", true, true, &snap, &deltas, &subtree, &children, &mut rows, 50, &mut out);
    assert_eq!(rows, 4);
    let got: Vec<(u32, u64, String, String)> =
        out.into_iter().map(|r| (r.pid, r.delta, r.indent, r.label)).collect();
    assert_eq!(
        got,
        vec![
            (1, 0, "".to_string(), "init".to_string()),
            (11, 8, "├─ ".to_string(), "node app.js".to_string()),
            (20, 5, "├─ ".to_string(), "[firefox, 2 procs] firefox".to_string()),
            (30, 5, "└─ ".to_string(), "top".to_string()),
        ]
    );
    let mut rows = 48usize;
    let mut out: Vec<TreeRow> = Vec::new();
    tree_rows(1, "│  ", false, false, &snap, &deltas, &subtree, &children, &mut rows, 50, &mut out);
    assert_eq!(rows, 50);
    assert_eq!(out.len(), 2);
    assert_eq!(out[0].indent, "│  ├─ ");
    assert_eq!(out[1].indent, "│  │  ├─ ");
}

#[test]
fn frame_tables() {
    let (snap, _, children) = forest();
    assert_eq!(children[&10].len(), 2);
    assert!(children[&10].contains(&11) && children[&10].contains(&12));
    assert_eq!(children[&0], vec![1]);
    assert_eq!(root_pids(&snap), vec![1]);
    let mut keys = keys_of(&snap);
    keys.sort();
    assert_eq!(keys, vec![1, 10, 11, 12, 20, 21, 30]);
    let folded = folded_into(&snap, &children);
    assert_eq!(folded.len(), 1);
    assert_eq!(folded[&21], 20);

    let mut prev = HashMap::new();
    prev.insert(1, sample("init", &[], 0, 100));
    prev.insert(2, sample("x", &[], 1, 50));
    let mut cur = HashMap::new();
    cur.insert(1, sample("init", &[], 0, 130));
    cur.insert(2, sample("x", &[], 1, 40));
    cur.insert(3, sample("y", &[], 1, 9));
    let d = frame_deltas(&prev, &cur);
    assert_eq!(d, amounts(&[(1, 30), (2, 0), (3, 0)]));

    let mut cumulative = amounts(&[(1, 5), (7, 9)]);
    update_cumulative(&mut cumulative, &amounts(&[(1, 3), (2, 0), (3, 4)]), &cur);
    assert_eq!(cumulative, amounts(&[(1, 8), (3, 4)]));
}

#[test]
fn leaderboard_busiest_first() {
    let (snap, deltas, children) = forest();
    let subtree = subtree_map(&snap, &deltas, &children);
    let cumulative = amounts(&[(11, 40), (21, 30), (30, 40), (1, 1)]);
    let subtree_cum = subtree_map(&snap, &cumulative, &children);
    let folded = folded_into(&snap, &children);
    let board = leaderboard(&snap, &folded, &cumulative, &deltas, &subtree_cum, &subtree);
    assert_eq!(board, vec![(11, 40, 8), (30, 40, 5), (20, 30, 5), (1, 1, 0)]);
}

#[test]
fn frame_layout() {
    assert_eq!(total_delta(100, 250), 150);
    assert_eq!(total_delta(100, 100), 1);
    assert_eq!(total_delta(300, 100), 1);
    assert_eq!(tree_budget(50, 8, 20), 36);
    assert_eq!(tree_budget(50, 8, 3), 41);
    assert_eq!(tree_budget(10, 8, 20), 5);
    assert_eq!(label_budget(160, 30), 130);
    assert_eq!(label_budget(20, 30), 10);
    assert_eq!(truncate_label("Happy (wattaouille)", 6), "Happy ");
    assert_eq!(truncate_label("né", 5), "né");
}

#[test]
fn subtree_is_own_plus_children() {
    let (snap, deltas, children) = forest();
    let own = |p: u32| deltas.get(&p).copied().unwrap_or(0);
    for p in [1u32, 10, 20] {
        let kids_total: u64 = children[&p].iter().map(|c| subtree_delta(*c, &deltas, &children)).sum();
        assert_eq!(subtree_delta(p, &deltas, &children), own(p) + kids_total);
        let kids_count: usize = children[&p]
            .iter()
            .map(|c| 1 + count_descendants(*c, &children, &deltas).0)
            .sum();
        assert_eq!(count_descendants(p, &children, &deltas).0, kids_count);
    }
    assert_eq!(subtree_delta(1, &deltas, &children), 18);
    assert_eq!(count_descendants(1, &children, &deltas), (6, 18));
    let _ = snap;
}

#[test]
fn session_totals_only_grow_while_alive() {
    let mut cur = HashMap::new();
    cur.insert(1, sample("init", &[], 0, 0));
    cur.insert(2, sample("x", &[], 1, 0));
    let mut cumulative = amounts(&[(1, 5)]);
    update_cumulative(&mut cumulative, &amounts(&[(1, 0), (2, 0)]), &cur);
    assert_eq!(cumulative, amounts(&[(1, 5)]));
    update_cumulative(&mut cumulative, &amounts(&[(1, 2), (2, 3)]), &cur);
    assert_eq!(cumulative, amounts(&[(1, 7), (2, 3)]));
    cur.remove(&1);
    update_cumulative(&mut cumulative, &amounts(&[(2, 1)]), &cur);
    assert_eq!(cumulative, amounts(&[(2, 4)]));
}

#[test]
fn idle_heavy_hitters_stay_on_the_board() {
    let (snap, _, children) = forest();
    let idle = amounts(&[(1, 0), (10, 0), (11, 0), (12, 0), (20, 0), (21, 0), (30, 0)]);
    let subtree = subtree_map(&snap, &idle, &children);
    let cumulative = amounts(&[(11, 40), (30, 7)]);
    let subtree_cum = subtree_map(&snap, &cumulative, &children);
    let folded = folded_into(&snap, &children);
    let board = leaderboard(&snap, &folded, &cumulative, &idle, &subtree_cum, &subtree);
    assert_eq!(board, vec![(11, 40, 0), (30, 7, 0)]);
}
