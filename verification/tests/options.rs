use lib::options::{columns_from, parse_options, program_name};

fn args(v: &[&str]) -> Vec<String> {
    v.iter().map(|a| a.to_string()).collect()
}

#[test]
fn defaults() {
    let o = parse_options(&args(&["wattaouille"]));
    assert!(!o.help);
    assert_eq!(o.interval_ms, 1500);
    assert_eq!(o.max_rows, 50);
    assert!(!o.no_power);
}

#[test]
fn flags_and_values() {
    let o = parse_options(&args(&["w", "-i", "500", "--rows", "30", "--no-power"]));
    assert_eq!(o.interval_ms, 500);
    assert_eq!(o.max_rows, 30);
    assert!(o.no_power);
    let o = parse_options(&args(&["w", "--interval", "x", "-n"]));
    assert_eq!(o.interval_ms, 1500);
    assert_eq!(o.max_rows, 50);
    let o = parse_options(&args(&["w", "-i", "200", "-i", "900", "-h"]));
    assert_eq!(o.interval_ms, 200);
    assert!(o.help);
}

#[test]
fn program_and_columns() {
    assert_eq!(program_name(&args(&["/usr/local/bin/wattaouille"])), "wattaouille");
    assert_eq!(program_name(&args(&[])), "monitor");
    assert_eq!(columns_from(Some("120")), 120);
    assert_eq!(columns_from(Some("wide")), 160);
    assert_eq!(columns_from(None), 160);
}
