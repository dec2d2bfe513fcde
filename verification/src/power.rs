//! Energy counters (Intel RAPL) and the battery: the decisions the monitor
//! takes on what `/sys/class/powercap` and `/sys/class/power_supply` hold.
use vstd::prelude::*;
use crate::text;
use crate::number;
use crate::procfs;

verus! {

/// The energy counted between two readings of a counter that wraps at
/// `max_uj`: the plain difference, or, where the counter wrapped, what was
/// left to `max_uj` plus the new reading (both saturating).
pub open spec fn counter_delta(max_uj: u64, before: u64, after: u64) -> u64 {
    if after >= before {
        (after - before) as u64
    } else {
        procfs::saturating_sum(
            if max_uj >= before {
                (max_uj - before) as u64
            } else {
                0
            },
            after,
        )
    }
}

/// Microjoules between two readings of a counter that wraps at `max_uj`.
pub fn wrapped_delta(max_uj: u64, before: u64, after: u64) -> (r: u64)
    ensures
        r == counter_delta(max_uj, before, after),
{
    if after >= before {
        after - before
    } else {
        max_uj.saturating_sub(before).saturating_add(after)
    }
}

/// The range of a counter: what a `max_energy_range_uj` file says, or
/// `u64::MAX` where it could not be read or does not read as a number.
pub open spec fn counter_range(contents: Option<Seq<char>>) -> u64 {
    match contents {
        Some(t) => match number::parse_trimmed_u64(t) {
            Some(v) => v,
            None => u64::MAX,
        },
        None => u64::MAX,
    }
}

/// The range of a counter from the contents of its `max_energy_range_uj`
/// file, if that could be read.
pub fn max_energy_from(contents: Option<&str>) -> (r: u64)
    ensures
        r == counter_range(
            match contents {
                Some(t) => Some(t@),
                None => None,
            },
        ),
{
    match contents {
        Some(t) => match number::parse_trimmed(t) {
            Some(v) => v,
            None => u64::MAX,
        },
        None => u64::MAX,
    }
}

/// An Intel RAPL subdomain (core, uncore, dram).
pub struct RaplDomain {
    pub label: String,
    pub energy_path: String,
    pub max_uj: u64,
}

impl RaplDomain {
    /// Microjoules this domain used between two readings of its counter,
    /// handling the counter's wrap at `max_uj`.
    pub fn delta_uj(&self, before: u64, after: u64) -> (r: u64)
        ensures
            r == counter_delta(self.max_uj, before, after),
    {
        wrapped_delta(self.max_uj, before, after)
    }

    /// The counter value that the contents of the domain's energy file give.
    pub fn reading_from(&self, contents: &str) -> (r: Option<u64>)
        ensures
            r == number::parse_trimmed_u64(contents@),
    {
        number::parse_trimmed(contents)
    }
}

/// Intel RAPL package-0 energy sensor.
pub struct PowerSensor {
    pub energy_path: String,
    pub max_uj: u64,
    pub enabled: bool,
    pub disabled_reason: Option<String>,
    pub subdomains: Vec<RaplDomain>,
}

impl PowerSensor {
    /// The package-0 energy counter.
    pub const PATH: &'static str = "/sys/class/powercap/intel-rapl:0/energy_uj";

    /// The range at which the package-0 counter wraps.
    pub const WRAP_PATH: &'static str = "/sys/class/powercap/intel-rapl:0/max_energy_range_uj";

    /// The directory of all power-capping domains.
    pub const DOMAIN_DIR: &'static str = "/sys/class/powercap";

    /// A sensor switched off by the user.
    pub fn forced_off(max_uj: u64) -> (r: PowerSensor)
        ensures
            r.energy_path@ == Self::PATH@,
            r.max_uj == max_uj,
            !r.enabled,
            r.disabled_reason matches Some(m) && m@ == "forced off via --no-power"@,
            r.subdomains@.len() == 0,
    {
        PowerSensor {
            energy_path: String::from_str(Self::PATH),
            max_uj,
            enabled: false,
            disabled_reason: Some(String::from_str("forced off via --no-power")),
            subdomains: Vec::new(),
        }
    }

    /// A sensor whose counter could be read, with the subdomains found.
    pub fn readable(max_uj: u64, subdomains: Vec<RaplDomain>) -> (r: PowerSensor)
        ensures
            r.energy_path@ == Self::PATH@,
            r.max_uj == max_uj,
            r.enabled,
            r.disabled_reason is None,
            r.subdomains == subdomains,
    {
        PowerSensor {
            energy_path: String::from_str(Self::PATH),
            max_uj,
            enabled: true,
            disabled_reason: None,
            subdomains,
        }
    }

    /// A sensor whose counter could not be read, for the reason given.
    pub fn unreadable(max_uj: u64, reason: String) -> (r: PowerSensor)
        ensures
            r.energy_path@ == Self::PATH@,
            r.max_uj == max_uj,
            !r.enabled,
            r.disabled_reason == Some(reason),
            r.subdomains@.len() == 0,
    {
        PowerSensor {
            energy_path: String::from_str(Self::PATH),
            max_uj,
            enabled: false,
            disabled_reason: Some(reason),
            subdomains: Vec::new(),
        }
    }

    /// Microjoules the package used between two readings of its counter,
    /// handling the counter's wrap at `max_uj`.
    pub fn delta_uj(&self, before: u64, after: u64) -> (r: u64)
        ensures
            r == counter_delta(self.max_uj, before, after),
    {
        wrapped_delta(self.max_uj, before, after)
    }

    /// The counter value, given the contents of the energy file where it
    /// could be read: none while the sensor is disabled.
    pub fn reading_from(&self, contents: Option<&str>) -> (r: Option<u64>)
        ensures
            r == (if !self.enabled {
                None
            } else {
                match contents {
                    Some(t) => number::parse_trimmed_u64(t@),
                    None => None,
                }
            }),
    {
        if !self.enabled {
            return None;
        }
        match contents {
            Some(t) => number::parse_trimmed(t),
            None => None,
        }
    }

    /// The text that tells the user why wattage is off and how to enable
    /// it, given whether `/sys/class/powercap` and its `intel-rapl:0`
    /// domain exist.
    pub fn instructions_for(&self, powercap_present: bool, rapl_present: bool) -> (r: String)
        ensures
            r@ == instructions_text(
                match self.disabled_reason {
                    Some(m) => m@,
                    None => "unknown"@,
                },
                powercap_present,
                rapl_present,
            ),
    {
        let mut s = String::new();
        s.append("⚡ Wattage disabled\n");
        s.append("   reason: ");
        match &self.disabled_reason {
            Some(m) => s.append(m.as_str()),
            None => s.append("unknown"),
        }
        s.append("\n");
        if !powercap_present {
            s.append(MISSING_POWERCAP);
            return s;
        }
        if !rapl_present {
            s.append(MISSING_RAPL);
            return s;
        }
        s.append(ROOT_ONLY);
        s
    }
}

/// What the instructions say when the kernel has no power capping.
pub const MISSING_POWERCAP: &'static str = "   /sys/class/powercap is missing — your kernel was built without\n   CONFIG_POWERCAP. No RAPL access is possible on this system.\n";

/// What the instructions say when there is no Intel RAPL domain.
pub const MISSING_RAPL: &'static str = "   /sys/class/powercap/intel-rapl:0 is missing — likely an AMD or ARM\n   CPU. Try `ls /sys/class/powercap` to see what's available; AMD\n   systems may expose `amd_energy` instead.\n";

/// What the instructions say when the counters exist but only root may read them.
pub const ROOT_ONLY: &'static str = "   RAPL counters exist but are mode 0400 (root-only).\n   Pick one to enable wattage:\n\n     # 1. One-shot for this boot:\n     sudo chmod a+r /sys/class/powercap/intel-rapl:0/energy_uj \\\n          /sys/class/powercap/intel-rapl/intel-rapl:0/intel-rapl:0:*/energy_uj\n\n     # 2. Persist via udev (survives reboots):\n     echo 'SUBSYSTEM==\"powercap\", ACTION==\"add\", \\\n       RUN+=\"/bin/chmod a+r /sys%p/energy_uj\"' | \\\n         sudo tee /etc/udev/rules.d/60-rapl-readable.rules\n     sudo udevadm control --reload && sudo udevadm trigger --subsystem-match=powercap\n\n     # 3. Or just run wattaouille with sudo.\n";

/// The instructions shown when wattage is disabled for `reason`: a heading,
/// the reason, then what is missing or, where the counters exist, how to
/// make them readable.
pub open spec fn instructions_text(reason: Seq<char>, powercap_present: bool, rapl_present: bool) -> Seq<char> {
    let head = "⚡ Wattage disabled\n"@ + "   reason: "@ + reason + "\n"@;
    if !powercap_present {
        head + MISSING_POWERCAP@
    } else if !rapl_present {
        head + MISSING_RAPL@
    } else {
        head + ROOT_ONLY@
    }
}

// ---------------------------------------------------------------------------
// Battery
// ---------------------------------------------------------------------------

/// The code of `c` with an ASCII upper-case letter lowered.
pub open spec fn ascii_lower(c: char) -> u32 {
    let u = c as u32;
    if 0x41 <= u <= 0x5a {
        (u + 32) as u32
    } else {
        u
    }
}

/// `a.eq_ignore_ascii_case(b)`: equal once ASCII letters are lower-cased.
pub open spec fn eq_ignore_ascii_case(a: Seq<char>, b: Seq<char>) -> bool {
    a.len() == b.len() && forall|i: int| 0 <= i < a.len() ==> ascii_lower(#[trigger] a[i])
        == ascii_lower(b[i])
}

fn lower(c: char) -> (r: u32)
    ensures
        r == ascii_lower(c),
{
    let u = c as u32;
    if 0x41 <= u && u <= 0x5a {
        u + 32
    } else {
        u
    }
}

/// The battery is discharging: judged by the AC adapter's `online` flag
/// where it could be read (`"0"`: unplugged), else by the battery's
/// `status` (`"Discharging"`, in any case), else not.
pub open spec fn discharging(ac_online: Option<Seq<char>>, status: Option<Seq<char>>) -> bool {
    match ac_online {
        Some(t) => text::trim(t) == "0"@,
        None => match status {
            Some(t) => eq_ignore_ascii_case(text::trim(t), "Discharging"@),
            None => false,
        },
    }
}

/// Whether the battery is discharging, given the contents of the AC
/// adapter's `online` file and of the battery's `status` file, where they
/// exist and could be read.
#[verifier::loop_isolation(false)]
pub fn discharging_from(ac_online: Option<&str>, status: Option<&str>) -> (r: bool)
    ensures
        r == discharging(
            match ac_online {
                Some(t) => Some(t@),
                None => None,
            },
            match status {
                Some(t) => Some(t@),
                None => None,
            },
        ),
{
    match ac_online {
        Some(t) => {
            let v = text::chars_of(t);
            assert(v@.subrange(0, v@.len() as int) =~= v@);
            let (a, b) = text::trim_range(&v, 0, v.len());
            let zero = text::chars_of("0");
            if b - a != zero.len() {
                return false;
            }
            let r = text::matches_at(&v, a, &zero);
            assert(v@.subrange(a as int, b as int) =~= v@.subrange(a as int, a + zero@.len()));
            r
        },
        None => match status {
            Some(t) => {
                let v = text::chars_of(t);
                assert(v@.subrange(0, v@.len() as int) =~= v@);
                let (a, b) = text::trim_range(&v, 0, v.len());
                let w = text::chars_of("Discharging");
                if b - a != w.len() {
                    return false;
                }
                let mut i: usize = 0;
                while i < w.len()
                    invariant
                        a <= b <= v@.len(),
                        b - a == w@.len(),
                        w@ == "Discharging"@,
                        v@ == t@,
                        v@.subrange(a as int, b as int) == text::trim(t@),
                        0 <= i <= w@.len(),
                        forall|j: int|
                            0 <= j < i ==> ascii_lower(#[trigger] v@.subrange(a as int, b as int)[j])
                                == ascii_lower(w@[j]),
                    decreases w@.len() - i,
                {
                    if lower(v[a + i]) != lower(w[i]) {
                        assert(v@.subrange(a as int, b as int)[i as int] == v@[a + i]);
                        assert(ascii_lower(text::trim(t@)[i as int]) != ascii_lower(
                            "Discharging"@[i as int],
                        ));
                        assert(!eq_ignore_ascii_case(text::trim(t@), "Discharging"@));
                        return false;
                    }
                    i = i + 1;
                }
                true
            },
            None => false,
        },
    }
}

/// The instantaneous draw, in microwatts, that a `power_now` file reports:
/// the magnitude of the signed number it holds.
pub open spec fn power_now_uw(contents: Seq<char>) -> Option<u64> {
    match number::parse_i64(text::trim(contents)) {
        Some(v) => Some(if v < 0 {
            (0 - v) as u64
        } else {
            v as u64
        }),
        None => None,
    }
}

/// The draw, in microwatts, from the contents of a `power_now` file.
pub fn power_now_from(contents: &str) -> (r: Option<u64>)
    ensures
        r == power_now_uw(contents@),
{
    let v = text::chars_of(contents);
    assert(v@.subrange(0, v@.len() as int) =~= v@);
    let (a, b) = text::trim_range(&v, 0, v.len());
    match number::parse_i64_range(&v, a, b) {
        Some(x) => Some(
            if x >= 0 {
                x as u64
            } else if x == i64::MIN {
                0x8000_0000_0000_0000
            } else {
                (0 - x) as u64
            },
        ),
        None => None,
    }
}

/// Reads `/sys/class/power_supply/BAT*/power_now` (instantaneous draw in µW)
/// and the AC adapter online flag, so it can be compared to the RAPL package
/// total. RAPL only accounts for the CPU package; the battery sees the full
/// system (display, RAM, NVMe, Wi-Fi, etc.), so BAT will normally exceed RAPL
/// when discharging, and the gap is "rest-of-system" draw. The battery's
/// `capacity` (state of charge, in percent) and `energy_now` (µWh) give the
/// charge shown and the time left at the current draw.
pub struct BatterySensor {
    pub power_now_path: Option<String>,
    pub status_path: Option<String>,
    pub ac_online_path: Option<String>,
    pub capacity_path: Option<String>,
    pub energy_now_path: Option<String>,
}

/// A `power_supply` entry that is a battery.
pub fn is_battery_name(name: &str) -> (r: bool)
    ensures
        r == text::starts_with(name@, "BAT"@),
{
    text::str_starts_with(name, "BAT")
}


// ---------------------------------------------------------------------------
// RAPL subdomains
// ---------------------------------------------------------------------------

/// `a <= b` in the order of `str` (lexicographic; on characters, which is
/// the order of their UTF-8 bytes).
pub open spec fn text_le(a: Seq<char>, b: Seq<char>) -> bool
    decreases a.len(),
{
    if a.len() == 0 {
        true
    } else if b.len() == 0 {
        false
    } else if a[0] != b[0] {
        a[0] < b[0]
    } else {
        text_le(a.drop_first(), b.drop_first())
    }
}

/// Any two texts are ordered one way or the other.
pub proof fn lemma_text_le_total(a: Seq<char>, b: Seq<char>)
    ensures
        text_le(a, b) || text_le(b, a),
    decreases a.len(),
{
    if a.len() > 0 && b.len() > 0 {
        if a[0] == b[0] {
            lemma_text_le_total(a.drop_first(), b.drop_first());
        } else {
            assert(text_le(a, b) == (a[0] < b[0]));
            assert(text_le(b, a) == (b[0] < a[0]));
        }
    }
}

/// The order of texts is transitive.
pub proof fn lemma_text_le_trans(a: Seq<char>, b: Seq<char>, c: Seq<char>)
    requires
        text_le(a, b),
        text_le(b, c),
    ensures
        text_le(a, c),
    decreases a.len(),
{
    if a.len() > 0 && b.len() > 0 && c.len() > 0 && a[0] == b[0] && b[0] == c[0] {
        lemma_text_le_trans(a.drop_first(), b.drop_first(), c.drop_first());
    }
}

/// Whether `a <= b` in the order of `str`.
pub fn str_le(a: &str, b: &str) -> (r: bool)
    ensures
        r == text_le(a@, b@),
{
    let v = text::chars_of(a);
    let w = text::chars_of(b);
    let mut i: usize = 0;
    assert(v@.skip(0) =~= v@);
    assert(w@.skip(0) =~= w@);
    while i < v.len() && i < w.len() && v[i] == w[i]
        invariant
            0 <= i <= v@.len(),
            i <= w@.len(),
            text_le(v@, w@) == text_le(v@.skip(i as int), w@.skip(i as int)),
        decreases v@.len() - i,
    {
        assert(v@.skip(i as int).drop_first() =~= v@.skip(i + 1));
        assert(w@.skip(i as int).drop_first() =~= w@.skip(i + 1));
        i = i + 1;
    }
    if i == v.len() {
        true
    } else if i == w.len() {
        false
    } else {
        v[i] < w[i]
    }
}

/// The directories of the package-0 subdomains among the entries of
/// `/sys/class/powercap`, in the order the entries are listed.
pub open spec fn rapl_dirs(names: Seq<Seq<char>>) -> Seq<Seq<char>>
    decreases names.len(),
{
    if names.len() == 0 {
        Seq::empty()
    } else if text::starts_with(names.last(), "intel-rapl:0:"@) {
        rapl_dirs(names.drop_last()).push("/sys/class/powercap/"@ + names.last())
    } else {
        rapl_dirs(names.drop_last())
    }
}

/// The texts are in the order of `str`.
pub open spec fn texts_sorted(s: Seq<Seq<char>>) -> bool {
    forall|i: int, j: int| 0 <= i < j < s.len() ==> text_le(#[trigger] s[i], #[trigger] s[j])
}

/// The directories of the package-0 subdomains (`intel-rapl:0:*`) among the
/// entry names of `/sys/class/powercap`, sorted.
pub fn subdomain_dirs(names: &Vec<String>) -> (r: Vec<String>)
    ensures
        texts_sorted(r.deep_view()),
        r.deep_view().to_multiset() == rapl_dirs(names.deep_view()).to_multiset(),
{
    let mut out: Vec<String> = Vec::new();
    let mut k: usize = 0;
    assert(names.deep_view().take(0) =~= Seq::<Seq<char>>::empty());
    assert(out.deep_view() =~= Seq::<Seq<char>>::empty());
    while k < names.len()
        invariant
            0 <= k <= names.deep_view().len(),
            texts_sorted(out.deep_view()),
            out.deep_view().to_multiset() == rapl_dirs(names.deep_view().take(k as int)).to_multiset(),
        decreases names.deep_view().len() - k,
    {
        let name: &str = names[k].as_str();
        let ghost nv = names.deep_view();
        assert(nv.take(k + 1).drop_last() =~= nv.take(k as int));
        assert(nv.take(k + 1).last() == name@);
        if text::str_starts_with(name, "intel-rapl:0:") {
            let mut path = String::from_str("/sys/class/powercap/");
            path.append(name);
            let mut p: usize = 0;
            let ghost before = out.deep_view();
            while p < out.len()
                invariant
                    0 <= p <= out.deep_view().len(),
                    out.deep_view() == before,
                    forall|a: int| 0 <= a < p ==> text_le(#[trigger] before[a], path@),
                ensures
                    0 <= p <= before.len(),
                    forall|a: int| 0 <= a < p ==> text_le(#[trigger] before[a], path@),
                    p == before.len() || !text_le(before[p as int], path@),
                decreases out.deep_view().len() - p,
            {
                assert(out.deep_view()[p as int] == out[p as int]@);
                if !str_le(out[p].as_str(), path.as_str()) {
                    break;
                }
                p = p + 1;
            }
            let ghost pv = path@;
            out.insert(p, path);
            assert(out.deep_view() =~= before.insert(p as int, pv));
            assert forall|a: int, b: int| 0 <= a < b < out.deep_view().len() implies text_le(
                #[trigger] out.deep_view()[a],
                #[trigger] out.deep_view()[b],
            ) by {
                let ov = out.deep_view();
                if b < p {
                    assert(ov[a] == before[a] && ov[b] == before[b]);
                } else if b == p {
                    assert(ov[a] == before[a]);
                } else if a == p {
                    assert(ov[b] == before[b - 1]);
                    lemma_text_le_total(before[p as int], pv);
                    if b - 1 > p {
                        assert(text_le(before[p as int], before[b - 1]));
                        lemma_text_le_trans(pv, before[p as int], before[b - 1]);
                    }
                } else if a < p {
                    assert(ov[a] == before[a] && ov[b] == before[b - 1]);
                    lemma_text_le_total(before[p as int], pv);
                    if a == b - 1 {
                    } else {
                        assert(text_le(before[a], before[b - 1]));
                    }
                } else {
                    assert(ov[a] == before[a - 1] && ov[b] == before[b - 1]);
                    assert(text_le(before[a - 1], before[b - 1]));
                }
            }
            proof {
                vstd::seq_lib::to_multiset_insert(before, p as int, pv);
                vstd::seq_lib::to_multiset_build(rapl_dirs(nv.take(k as int)), pv);
            }
            assert(rapl_dirs(nv.take(k + 1)) == rapl_dirs(nv.take(k as int)).push(pv));
        }
        k = k + 1;
    }
    assert(names.deep_view().take(names.deep_view().len() as int) =~= names.deep_view());
    out
}


/// Minutes until a battery holding `energy_uwh` microwatt-hours is empty at
/// a draw of `power_uw` microwatts (rounded down); none at no draw, or where
/// the figure does not fit a `u64`.
pub open spec fn minutes_to_empty(energy_uwh: nat, power_uw: nat) -> Option<nat> {
    if power_uw == 0 || energy_uwh * 60 / power_uw > u64::MAX {
        None
    } else {
        Some(energy_uwh * 60 / power_uw)
    }
}

/// The battery's time-to-empty at the current draw, in minutes.
pub fn minutes_left(energy_uwh: u64, power_uw: u64) -> (r: Option<u64>)
    ensures
        r == match minutes_to_empty(energy_uwh as nat, power_uw as nat) {
            Some(m) => Some(m as u64),
            None => None,
        },
{
    if power_uw == 0 {
        return None;
    }
    let e: u128 = energy_uwh as u128;
    assert(e * 60 <= u64::MAX * 60) by (nonlinear_arith)
        requires
            e <= u64::MAX,
    ;
    let m: u128 = e * 60 / (power_uw as u128);
    if m > u64::MAX as u128 {
        None
    } else {
        Some(m as u64)
    }
}

/// A duration of `minutes` written as hours and minutes (`4h 23m`).
pub open spec fn hours_minutes_text(minutes: nat) -> Seq<char> {
    number::decimal(minutes / 60) + "h "@ + number::decimal(minutes % 60) + "m"@
}

/// Writes a duration given in minutes as hours and minutes, as the battery's
/// time-to-empty is shown.
pub fn hours_minutes(minutes: u64) -> (r: String)
    ensures
        r@ == hours_minutes_text(minutes as nat),
{
    let mut s = String::new();
    number::push_decimal(&mut s, minutes / 60);
    s.append("h ");
    number::push_decimal(&mut s, minutes % 60);
    s.append("m");
    s
}

} // verus!
