use lib::procfs::{
    count_cpus, cpu_total_checked, cpu_total_jiffies, parse_pid_list, parse_proc_io, parse_stat,
    sample_from, split_cmdline, stat_is_sliceable, stat_times_fit,
};

#[test]
fn parse_proc_io_sums_read_and_write() {
    let text = "rchar: 999\nwchar: 1\nsyscr: 5\nsyscw: 3\nread_bytes: 4096\nwrite_bytes: 8192\ncancelled_write_bytes: 0\n";
    assert_eq!(parse_proc_io(text), 4096 + 8192);
}

#[test]
fn parse_proc_io_handles_missing_fields() {
    assert_eq!(parse_proc_io("rchar: 100\nwchar: 0\n"), 0);
}

#[test]
fn parse_proc_io_last_line_wins_and_junk_reads_zero() {
    assert_eq!(parse_proc_io("read_bytes: 5\nread_bytes: 7\nwrite_bytes: x\n"), 7);
    assert_eq!(parse_proc_io("read_bytes: 12\r\nwrite_bytes:\t+3 \r\n"), 15);
    assert_eq!(parse_proc_io(""), 0);
    assert_eq!(parse_proc_io(" read_bytes: 5\n"), 0);
}

#[test]
fn parse_proc_io_saturates() {
    let text = format!("read_bytes: {}\nwrite_bytes: 10\n", u64::MAX - 3);
    assert_eq!(parse_proc_io(&text), u64::MAX);
    assert_eq!(parse_proc_io("read_bytes: 18446744073709551616\nwrite_bytes: 1\n"), 1);
}

const STAT: &str = "4785 (guake (x)) S 4560 4785 4785 0 -1 4194560 77 0 0 0 1500 250 0 0 20 0 4 0 3117 1 2 3";

#[test]
fn parse_stat_reads_comm_parent_and_times() {
    assert!(stat_is_sliceable(STAT));
    let (comm, ppid, jiffies) = parse_stat(STAT).unwrap();
    assert_eq!(comm, "guake (x)");
    assert_eq!(ppid, 4560);
    assert_eq!(jiffies, 1750);
}

#[test]
fn parse_stat_rejects_short_or_bad_lines() {
    assert!(parse_stat("12 (a) S 1 2 3").is_none());
    assert!(parse_stat("no parentheses at all").is_none());
    assert!(parse_stat("1 (a) S x 1 1 0 -1 0 0 0 0 0 5 6").is_none());
    assert!(!stat_is_sliceable(")x("));
    assert!(!stat_is_sliceable("1 (a)"));
    assert!(stat_is_sliceable("1 (a) S"));
}

#[test]
fn sample_from_builds_the_whole_sample() {
    let s = sample_from(
        STAT,
        "/usr/bin/python3\0/usr/bin/guake\0\0",
        Some("/home/you".to_string()),
        Some("read_bytes: 1\nwrite_bytes: 2\n"),
    )
    .unwrap();
    assert_eq!(s.comm, "guake (x)");
    assert_eq!(s.cmdline_args, vec!["/usr/bin/python3".to_string(), "/usr/bin/guake".to_string()]);
    assert_eq!(s.ppid, 4560);
    assert_eq!(s.cpu_jiffies, 1750);
    assert_eq!(s.cwd.as_deref(), Some("/home/you"));
    assert_eq!(s.io_bytes, Some(3));
    assert!(sample_from("garbage", "", None, None).is_none());
}

#[test]
fn split_cmdline_drops_empty_pieces() {
    assert_eq!(split_cmdline("a\0b c\0\0d\0"), vec!["a".to_string(), "b c".to_string(), "d".to_string()]);
    assert!(split_cmdline("").is_empty());
}

#[test]
fn parse_pid_list_skips_what_is_not_a_pid() {
    assert_eq!(parse_pid_list("12 34 x 56\n"), vec![12, 34, 56]);
    assert_eq!(parse_pid_list("4294967296 7"), vec![7]);
    assert!(parse_pid_list("").is_empty());
}

#[test]
fn cpu_total_jiffies_sums_the_first_line() {
    let stat = "cpu  10 2 30 400 5 0 1 0 0 0\ncpu0 5 1 15 200 2 0 0 0 0 0\nintr 1 2\n";
    assert_eq!(cpu_total_jiffies(stat), 448);
    assert_eq!(cpu_total_jiffies("cpu 1 x 2"), 3);
    assert_eq!(cpu_total_jiffies(""), 0);
}

#[test]
fn count_cpus_counts_per_cpu_lines() {
    let stat = "cpu  10 2 30\ncpu0 5 1 15\ncpu1 5 1 15\ncpu2 1\nintr 1 2\n";
    assert_eq!(count_cpus(stat), 3);
    assert_eq!(count_cpus(""), 1);
    assert_eq!(count_cpus("cpu  1 2 3\n"), 1);
}

#[test]
fn cpu_total_checked_refuses_an_overflowing_sum() {
    assert_eq!(cpu_total_checked("cpu 1 2 3"), Some(6));
    assert_eq!(cpu_total_checked("cpu 18446744073709551615 0"), Some(u64::MAX));
    assert_eq!(cpu_total_checked("cpu 18446744073709551615 1"), None);
    assert_eq!(cpu_total_checked(""), Some(0));
}

#[test]
fn stat_times_fit_tests_user_plus_system() {
    let ok = "42 (bash) S 1 42 42 0 -1 4194560 0 0 0 0 10 20 0 0 20 0 1 0 100 0 0";
    assert!(stat_times_fit(ok));
    let big = "42 (bash) S 1 42 42 0 -1 4194560 0 0 0 0 18446744073709551615 1 0 0 20 0 1 0 100 0 0";
    assert!(!stat_times_fit(big));
    let fits = "42 (bash) S 1 42 42 0 -1 4194560 0 0 0 0 18446744073709551615 0 0 0 20 0 1 0 100 0 0";
    assert!(stat_times_fit(fits));
    assert!(stat_times_fit("no parentheses here"));
}
