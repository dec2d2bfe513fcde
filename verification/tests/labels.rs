use lib::label::{
    ancestor_via_happy, cwd_basename, happy_subcommand, is_collapse_root,
    is_guake, is_smartgit, pretty_cmdline,
};
use lib::procfs::Sample;
use std::collections::HashMap;

fn sample(comm: &str, args: &[&str], ppid: u32, cwd: Option<&str>) -> Sample {
    Sample {
        comm: comm.to_string(),
        cmdline_args: args.iter().map(|a| a.to_string()).collect(),
        ppid,
        cpu_jiffies: 0,
        cwd: cwd.map(|c| c.to_string()),
        io_bytes: None,
    }
}

#[test]
fn cwd_basename_edge_cases() {
    assert_eq!(cwd_basename(&sample("x", &[], 1, Some("/home/you/wattaouille"))), Some("wattaouille"));
    assert_eq!(cwd_basename(&sample("x", &[], 1, Some("/var/lib/mysql/projA/"))), Some("projA"));
    assert_eq!(cwd_basename(&sample("x", &[], 1, Some("/"))), None);
    assert_eq!(cwd_basename(&sample("x", &[], 1, Some(""))), None);
    assert_eq!(cwd_basename(&sample("x", &[], 1, None)), None);
}

#[test]
fn smartgit_and_guake_are_recognised() {
    let smartgit = sample(
        "java",
        &["/usr/share/smartgit/jre/bin/java", "-XX:+UseG1GC", "-jar", "/usr/share/smartgit/lib/bootloader.jar"],
        1,
        None,
    );
    assert!(is_smartgit(&smartgit));
    assert!(is_smartgit(&sample("sh", &["/bin/sh", "/opt/x/smartgit.sh"], 1, None)));
    assert!(!is_smartgit(&sample("sh", &["/bin/sh"], 1, None)));
    assert!(is_guake(&sample("python3", &["python3", "/usr/bin/guake"], 1, None)));
    assert!(!is_guake(&sample("python3", &["python3", "/usr/bin/guake-toggle"], 1, None)));
}

#[test]
fn happy_subcommand_follows_the_script() {
    let s = sample("node", &["node", "/home/you/.config/yarn/global/node_modules/happy/dist/index.mjs", "vim", "x"], 1, None);
    assert_eq!(happy_subcommand(&s), Some("vim"));
    let bare = sample("node", &["node", "/a/happy/scripts/launch.js"], 1, None);
    assert_eq!(happy_subcommand(&bare), Some(""));
    let argv0_only = sample("node", &["/a/happy/dist/index.mjs"], 1, None);
    assert_eq!(happy_subcommand(&argv0_only), None);
    assert_eq!(happy_subcommand(&sample("node", &[], 1, None)), None);
}

fn snapshot_with_happy() -> HashMap<u32, Sample> {
    let mut snap = HashMap::new();
    snap.insert(1, sample("systemd", &["/sbin/init"], 0, Some("/")));
    snap.insert(
        18063,
        sample("node", &["node", "/home/you/.config/yarn/global/node_modules/happy/dist/index.mjs", "vim"], 1, Some("/home/you/wattaouille")),
    );
    snap.insert(
        18105,
        sample("vim", &["/usr/bin/vim", "notes.md"], 18063, Some("/home/you/wattaouille")),
    );
    snap.insert(
        24040,
        sample("vim", &["/usr/bin/vim"], 1, Some("/home/you/dotfiles")),
    );
    snap.insert(9, sample("node", &["node", "/a/happy/dist/index.mjs", "daemon"], 1, Some("/")));
    snap
}

#[test]
fn ancestry_through_happy() {
    let snap = snapshot_with_happy();
    assert!(ancestor_via_happy(18105, &snap));
    assert!(!ancestor_via_happy(24040, &snap));
    assert!(!ancestor_via_happy(1, &snap));
    assert!(!ancestor_via_happy(777, &snap));
}

#[test]
fn labels_speak_human() {
    let snap = snapshot_with_happy();
    assert_eq!(pretty_cmdline(18105, &snap[&18105], &snap), "vim notes.md");
    assert_eq!(pretty_cmdline(24040, &snap[&24040], &snap), "vim");
    assert_eq!(pretty_cmdline(18063, &snap[&18063], &snap), "Happy (wattaouille)");
    assert_eq!(pretty_cmdline(9, &snap[&9], &snap), "Happy daemon");
    let mut snap2 = HashMap::new();
    let happy_no_cwd = sample("node", &["node", "/a/happy/dist/index.mjs", "vim"], 1, None);
    snap2.insert(5, happy_no_cwd);
    assert_eq!(pretty_cmdline(5, &snap2[&5], &snap2), "Happy");
    let smartgit = sample("java", &["/usr/share/smartgit/jre/bin/java", "-jar", "/usr/share/smartgit/lib/bootloader.jar"], 1, None);
    assert_eq!(pretty_cmdline(7, &smartgit, &snap2), "SmartGit");
    let guake = sample("python3", &["python3", "/usr/bin/guake"], 1, None);
    assert_eq!(pretty_cmdline(8, &guake, &snap2), "Guake terminal");
    let mysqld = sample("mysqld", &["/usr/sbin/mysqld", "--sql_mode="], 1, Some("/var/lib/mysql/projA"));
    assert_eq!(pretty_cmdline(10, &mysqld, &snap2), "mysqld (projA)");
    let mysqld_root = sample("mysqld", &["/usr/sbin/mysqld"], 1, Some("/"));
    assert_eq!(pretty_cmdline(11, &mysqld_root, &snap2), "mysqld");
    let kthread = sample("kworker/0:1", &[], 2, None);
    assert_eq!(pretty_cmdline(12, &kthread, &snap2), "[kworker/0:1]");
    let xorg = sample("Xorg", &["/usr/lib/xorg/Xorg", ":0", "-seat", "seat0"], 1, None);
    assert_eq!(pretty_cmdline(13, &xorg, &snap2), "Xorg :0 -seat seat0");
    let trailing = sample("x", &["/opt/bin/"], 1, None);
    assert_eq!(pretty_cmdline(14, &trailing, &snap2), "");
}

#[test]
fn browsers_collapse_only_at_their_main_process() {
    assert!(is_collapse_root(&sample("librewolf", &["librewolf", "--sm-client-id", "x"], 1, None)));
    assert!(is_collapse_root(&sample("chrome", &["/opt/google/chrome/chrome"], 1, None)));
    assert!(!is_collapse_root(&sample("chrome", &["/opt/google/chrome/chrome", "--type=renderer"], 1, None)));
    assert!(!is_collapse_root(&sample("firefox", &["firefox", "-contentproc", "-childID"], 1, None)));
    assert!(!is_collapse_root(&sample("bash", &["bash"], 1, None)));
    assert!(is_collapse_root(&sample("vivaldi-bin", &[], 1, None)));
}
