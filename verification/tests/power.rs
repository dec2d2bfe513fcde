use lib::power::{
    discharging_from, hours_minutes, is_battery_name, max_energy_from, minutes_left, power_now_from, str_le,
    subdomain_dirs, wrapped_delta, PowerSensor, RaplDomain,
};

#[test]
fn rapl_joules_simple() {
    let p = PowerSensor {
        energy_path: PowerSensor::PATH.to_string(),
        max_uj: 1_000_000_000,
        enabled: false,
        disabled_reason: None,
        subdomains: vec![],
    };
    assert!((p.delta_uj(1_000_000, 6_000_000) as f64 / 1_000_000.0 - 5.0).abs() < 1e-9);
}

#[test]
fn rapl_joules_wraparound() {
    let p = PowerSensor {
        energy_path: PowerSensor::PATH.to_string(),
        max_uj: 100,
        enabled: false,
        disabled_reason: None,
        subdomains: vec![],
    };
    assert!((p.delta_uj(95, 10) as f64 / 1_000_000.0 - 15.0 / 1_000_000.0).abs() < 1e-12);
}

#[test]
fn rapl_domain_joules_wraparound() {
    let d = RaplDomain {
        label: "core".to_string(),
        energy_path: "x".to_string(),
        max_uj: 100,
    };
    assert!((d.delta_uj(95, 10) as f64 / 1_000_000.0 - 15.0 / 1_000_000.0).abs() < 1e-12);
}

#[test]
fn counter_delta_saturates() {
    assert_eq!(wrapped_delta(100, 150, 10), 10);
    assert_eq!(wrapped_delta(u64::MAX, 5, 3), u64::MAX - 2);
    assert_eq!(wrapped_delta(100, 7, 7), 0);
}

#[test]
fn max_energy_defaults_to_u64_max() {
    assert_eq!(max_energy_from(Some(" 262143328850\n")), 262143328850);
    assert_eq!(max_energy_from(Some("n/a")), u64::MAX);
    assert_eq!(max_energy_from(None), u64::MAX);
}

#[test]
fn readings_need_an_enabled_sensor() {
    let on = PowerSensor::readable(100, vec![]);
    let off = PowerSensor::forced_off(100);
    assert_eq!(on.reading_from(Some("42\n")), Some(42));
    assert_eq!(on.reading_from(Some("")), None);
    assert_eq!(on.reading_from(None), None);
    assert_eq!(off.reading_from(Some("42\n")), None);
    assert_eq!(off.disabled_reason.as_deref(), Some("forced off via --no-power"));
    assert_eq!(on.energy_path, PowerSensor::PATH);
    let d = RaplDomain { label: "core".to_string(), energy_path: "x".to_string(), max_uj: 1 };
    assert_eq!(d.reading_from("  17 "), Some(17));
}

#[test]
fn instructions_follow_what_exists() {
    let off = PowerSensor::unreadable(5, "Permission denied (os error 13)".to_string());
    let none = off.instructions_for(false, false);
    assert!(none.starts_with("⚡ Wattage disabled\n   reason: Permission denied (os error 13)\n"));
    assert!(none.contains("CONFIG_POWERCAP"));
    let amd = off.instructions_for(true, false);
    assert!(amd.contains("amd_energy"));
    let root = off.instructions_for(true, true);
    assert!(root.contains("sudo chmod a+r /sys/class/powercap/intel-rapl:0/energy_uj"));
    assert!(root.ends_with("     # 3. Or just run wattaouille with sudo.\n"));
    let unknown = PowerSensor::readable(5, vec![]).instructions_for(true, true);
    assert!(unknown.contains("   reason: unknown\n"));
}

#[test]
fn subdomains_are_filtered_and_sorted() {
    let names = vec![
        "intel-rapl:0:2".to_string(),
        "intel-rapl:1".to_string(),
        "intel-rapl:0:0".to_string(),
        "intel-rapl:0".to_string(),
        "intel-rapl:0:1".to_string(),
    ];
    assert_eq!(
        subdomain_dirs(&names),
        vec![
            "/sys/class/powercap/intel-rapl:0:0".to_string(),
            "/sys/class/powercap/intel-rapl:0:1".to_string(),
            "/sys/class/powercap/intel-rapl:0:2".to_string(),
        ]
    );
    assert!(str_le("ab", "b"));
    assert!(str_le("", ""));
    assert!(!str_le("b", "ab"));
    assert!(str_le("a", "ab"));
}

#[test]
fn discharging_prefers_the_ac_flag() {
    assert!(discharging_from(Some("0\n"), Some("Charging")));
    assert!(!discharging_from(Some("1\n"), Some("Discharging")));
    assert!(discharging_from(None, Some("discharging\n")));
    assert!(discharging_from(None, Some("DISCHARGING")));
    assert!(!discharging_from(None, Some("Full")));
    assert!(!discharging_from(None, None));
}

#[test]
fn power_now_is_a_magnitude() {
    assert_eq!(power_now_from("18000000\n"), Some(18_000_000));
    assert_eq!(power_now_from("-7500000"), Some(7_500_000));
    assert_eq!(power_now_from("-9223372036854775808"), Some(9_223_372_036_854_775_808));
    assert_eq!(power_now_from("x"), None);
    assert!(is_battery_name("BAT0"));
    assert!(!is_battery_name("AC"));
}

#[test]
fn time_left_is_hours_and_minutes() {
    assert_eq!(hours_minutes(263), "4h 23m");
    assert_eq!(hours_minutes(0), "0h 0m");
    assert_eq!(hours_minutes(60), "1h 0m");
}

#[test]
fn time_to_empty_at_the_current_draw() {
    // 45 Wh at 10.26 W: 263 minutes, shown as in the README.
    assert_eq!(minutes_left(45_000_000, 10_260_000), Some(263));
    assert_eq!(hours_minutes(minutes_left(45_000_000, 10_260_000).unwrap()), "4h 23m");
    assert_eq!(minutes_left(45_000_000, 0), None);
    assert_eq!(minutes_left(u64::MAX, 1), None);
    assert_eq!(minutes_left(u64::MAX, 60), Some(u64::MAX));
}
