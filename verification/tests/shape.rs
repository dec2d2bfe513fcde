use lib::frame::{children_map, descendants};
use lib::procfs::Sample;
use lib::shape::tree_walkable;
use lib::tree::process_label;
use std::collections::HashMap;

fn sample(comm: &str, args: &[&str], ppid: u32) -> Sample {
    Sample {
        comm: comm.to_string(),
        cmdline_args: args.iter().map(|a| a.to_string()).collect(),
        ppid,
        cpu_jiffies: 0,
        cwd: None,
        io_bytes: None,
    }
}

fn browser_snapshot() -> HashMap<u32, Sample> {
    let mut snap = HashMap::new();
    snap.insert(1, sample("init", &["/sbin/init"], 0));
    snap.insert(20, sample("firefox", &["/usr/lib/firefox/firefox"], 1));
    snap.insert(21, sample("firefox", &["firefox", "-contentproc"], 20));
    snap.insert(22, sample("firefox", &["firefox", "-contentproc"], 20));
    snap.insert(23, sample("firefox", &["firefox", "-contentproc"], 22));
    snap
}

#[test]
fn a_real_tree_can_be_walked() {
    let snap = browser_snapshot();
    let children = children_map(&snap);
    let deltas: HashMap<u32, u64> = [(1, 3), (20, 4), (21, 5), (22, 0), (23, 1)].into_iter().collect();
    let cumulative: HashMap<u32, u64> = [(20, 40), (21, 50)].into_iter().collect();
    assert!(tree_walkable(&snap, &children, &deltas, &cumulative));
}

#[test]
fn a_cycle_among_parents_is_refused() {
    let mut snap = browser_snapshot();
    // 20 and 23 each name the other's subtree as parent.
    snap.insert(20, sample("firefox", &["/usr/lib/firefox/firefox"], 23));
    let children = children_map(&snap);
    let none: HashMap<u32, u64> = HashMap::new();
    assert!(!tree_walkable(&snap, &children, &none, &none));

    let mut own_parent = HashMap::new();
    own_parent.insert(7, sample("weird", &["weird"], 7));
    let children = children_map(&own_parent);
    assert!(!tree_walkable(&own_parent, &children, &none, &none));
}

#[test]
fn totals_past_u64_are_refused() {
    let snap = browser_snapshot();
    let children = children_map(&snap);
    let none: HashMap<u32, u64> = HashMap::new();
    let huge: HashMap<u32, u64> = [(21, u64::MAX), (23, 1)].into_iter().collect();
    assert!(!tree_walkable(&snap, &children, &huge, &none));
    assert!(!tree_walkable(&snap, &children, &none, &huge));
    let fits: HashMap<u32, u64> = [(21, u64::MAX - 1), (23, 1)].into_iter().collect();
    assert!(tree_walkable(&snap, &children, &fits, &none));
}

#[test]
fn descendants_lists_the_whole_subtree() {
    let snap = browser_snapshot();
    let children = children_map(&snap);
    let mut below = descendants(20, &children);
    below.sort();
    assert_eq!(below, vec![21, 22, 23]);
    let mut all = descendants(1, &children);
    all.sort();
    assert_eq!(all, vec![20, 21, 22, 23]);
    assert!(descendants(23, &children).is_empty());
    assert!(descendants(999, &children).is_empty());
}

#[test]
fn browser_labels_count_their_processes() {
    let snap = browser_snapshot();
    let children = children_map(&snap);
    let deltas: HashMap<u32, u64> = HashMap::new();
    assert_eq!(
        process_label(20, &snap, &deltas, &children),
        "[firefox, 4 procs] firefox"
    );
    assert_eq!(process_label(21, &snap, &deltas, &children), "firefox -contentproc");
    assert_eq!(process_label(1, &snap, &deltas, &children), "init");
}
