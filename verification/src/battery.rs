//! Battery and AC adapter readings from `/sys/class/power_supply`.
use vstd::prelude::*;
use crate::sysfs::{content_or_empty, opt_string_view, parse_attr, parsed, read_string_or_empty};
use crate::text::{eq_str, trim, vec_eq, to_chars};

verus! {

/// A directory under `/sys/class/power_supply` and the raw content of its
/// `type` file (`None` when it could not be read).
#[derive(Debug, Clone)]
pub struct PowerSupply {
    pub path: String,
    pub type_raw: Option<String>,
}

/// The paths, in directory order, of the supplies whose type is `want`.
pub open spec fn paths_of_type(ps: Seq<PowerSupply>, want: Seq<char>) -> Seq<Seq<char>>
    decreases ps.len(),
{
    if ps.len() == 0 {
        Seq::empty()
    } else {
        let prior = paths_of_type(ps.drop_last(), want);
        match ps.last().type_raw {
            Some(t) => if trim(t@) == want {
                prior.push(ps.last().path@)
            } else {
                prior
            },
            None => prior,
        }
    }
}

pub open spec fn string_views(v: Seq<String>) -> Seq<Seq<char>> {
    v.map_values(|s: String| s@)
}

/// The supplies of type `want` (`Battery`, `Mains`, ...), in directory order.
pub fn psu_paths_by_type(supplies: &Vec<PowerSupply>, want: &str) -> (r: Vec<String>)
    ensures
        string_views(r@) == paths_of_type(supplies@, want@),
{
    let w = to_chars(want);
    let mut out: Vec<String> = Vec::new();
    let n = supplies.len();
    for k in 0..n
        invariant
            n == supplies.len(),
            w@ == want@,
            string_views(out@) == paths_of_type(supplies@.take(k as int), want@),
    {
        assert(supplies@.take(k + 1).drop_last() =~= supplies@.take(k as int));
        let p = &supplies[k];
        match &p.type_raw {
            Some(_) => {
                let t = read_string_or_empty(&p.type_raw);
                if vec_eq(&t, &w) {
                    let ghost before = out@;
                    out.push(p.path.clone());
                    assert(string_views(out@) =~= string_views(before).push(p.path@));
                }
            },
            None => {},
        }
    }
    assert(supplies@.take(n as int) =~= supplies@);
    out
}

/// The raw contents of a battery's attribute files (`None` where a file
/// could not be read).
#[derive(Debug, Clone)]
pub struct BatteryFiles {
    pub status: Option<String>,
    pub voltage_now: Option<String>,
    pub power_now: Option<String>,
    pub current_now: Option<String>,
    pub energy_now: Option<String>,
    pub energy_full: Option<String>,
    pub energy_full_design: Option<String>,
    pub charge_now: Option<String>,
    pub charge_full: Option<String>,
    pub charge_full_design: Option<String>,
    pub capacity: Option<String>,
    pub cycle_count: Option<String>,
    pub temp: Option<String>,
}

/// The integer readings of a battery; the caller turns them into watts,
/// percentages and minutes.
#[derive(Debug, Clone, Copy)]
pub struct BatteryReading {
    pub charging: bool,
    pub voltage_uv: i64,
    /// Absolute power draw in µW (the sign convention of `power_now` varies).
    pub drain_uw: u64,
    pub current_ua: i64,
    /// Present, full and design capacity in µWh.
    pub current_uwh: i64,
    pub max_uwh: i64,
    pub design_uwh: i64,
    /// The kernel's own charge percentage, when it publishes one.
    pub capacity_pct: Option<u32>,
    pub cycle_count: i64,
    /// Battery temperature in tenths of a degree, when published.
    pub temp_decidegrees: Option<i64>,
    /// Energy still to charge (when charging) or to drain, in µWh.
    pub headroom_uwh: i64,
    /// Present and full capacity in mWh.
    pub current_capacity_mwh: i64,
    pub max_capacity_mwh: i64,
}

pub open spec fn attr_i64(raw: Option<String>) -> Option<i64> {
    parsed::<i64>(opt_string_view(raw))
}

pub open spec fn or_zero(x: Option<i64>) -> i64 {
    match x {
        Some(v) => v,
        None => 0,
    }
}

/// `i64` division as Rust does it: truncating toward zero.
pub open spec fn div_trunc(x: int, d: int) -> int {
    if x >= 0 {
        x / d
    } else {
        -((-x) / d)
    }
}

/// `i64::saturating_sub`.
pub open spec fn sat_sub_i64(a: i64, b: i64) -> i64 {
    if a - b > i64::MAX {
        i64::MAX
    } else if a - b < i64::MIN {
        i64::MIN
    } else {
        (a - b) as i64
    }
}

/// Present, full and design capacity in µWh: straight from `energy_*`, else
/// from `charge_*` (µAh) scaled by whole volts (at least 3), else zeros. The
/// products are truncated to `i64` as the `as` casts do.
pub open spec fn capacity_of(f: BatteryFiles) -> (i64, i64, i64) {
    match (attr_i64(f.energy_now), attr_i64(f.energy_full)) {
        (Some(c), Some(m)) => (
            c,
            m,
            match attr_i64(f.energy_full_design) {
                Some(d) => d,
                None => m,
            },
        ),
        _ => match (attr_i64(f.charge_now), attr_i64(f.charge_full)) {
            (Some(c), Some(m)) => {
                let d = match attr_i64(f.charge_full_design) {
                    Some(d) => d,
                    None => m,
                };
                let v = or_zero(attr_i64(f.voltage_now));
                let v2 = if v > 3_700_000 {
                    v
                } else {
                    3_700_000
                };
                let scale = v2 / 1_000_000;
                ((c * scale) as i64, (m * scale) as i64, (d * scale) as i64)
            },
            _ => (0, 0, 0),
        },
    }
}

pub open spec fn is_charging(f: BatteryFiles) -> bool {
    let s = content_or_empty(opt_string_view(f.status));
    s == "Charging"@ || s == "Full"@
}

/// The reading that `read_battery` derives from a battery's files.
pub open spec fn battery_of(f: BatteryFiles) -> BatteryReading {
    let (cur, max, design) = capacity_of(f);
    let charging = is_charging(f);
    let power = or_zero(attr_i64(f.power_now));
    BatteryReading {
        charging,
        voltage_uv: or_zero(attr_i64(f.voltage_now)),
        drain_uw: (if power >= 0 {
            power as int
        } else {
            -(power as int)
        }) as u64,
        current_ua: or_zero(attr_i64(f.current_now)),
        current_uwh: cur,
        max_uwh: max,
        design_uwh: design,
        capacity_pct: parsed::<u32>(opt_string_view(f.capacity)),
        cycle_count: or_zero(attr_i64(f.cycle_count)),
        temp_decidegrees: attr_i64(f.temp),
        headroom_uwh: if charging {
            sat_sub_i64(max, cur)
        } else {
            cur
        },
        current_capacity_mwh: div_trunc(cur as int, 1000) as i64,
        max_capacity_mwh: div_trunc(max as int, 1000) as i64,
    }
}

fn scaled(x: i64, scale: i128) -> (r: i64)
    requires
        3 <= scale <= i64::MAX / 1_000_000,
    ensures
        r == (x * scale) as i64,
{
    proof {
        assert(-0x8000_0000_0000_0000 * 0x2_0000_0000_0000 <= x * scale <= 0x7fff_ffff_ffff_ffff
            * 0x2_0000_0000_0000) by (nonlinear_arith)
            requires
                -0x8000_0000_0000_0000 <= x <= 0x7fff_ffff_ffff_ffff,
                3 <= scale <= 0x2_0000_0000_0000,
        ;
    }
    (x as i128 * scale) as i64
}

fn or_zero_of(x: Option<i64>) -> (r: i64)
    ensures
        r == or_zero(x),
{
    match x {
        Some(v) => v,
        None => 0,
    }
}

/// Derives the integer readings of one battery from its attribute files.
pub fn read_battery(f: &BatteryFiles) -> (r: BatteryReading)
    ensures
        r == battery_of(*f),
{
    let status = read_string_or_empty(&f.status);
    let charging = eq_str(&status, "Charging") || eq_str(&status, "Full");
    let voltage_uv = or_zero_of(parse_attr::<i64>(&f.voltage_now));
    let power_uw = or_zero_of(parse_attr::<i64>(&f.power_now));
    let current_ua = or_zero_of(parse_attr::<i64>(&f.current_now));
    let drain_uw: u64 = if power_uw >= 0 {
        power_uw as u64
    } else {
        (-(power_uw as i128)) as u64
    };
    let (current_uwh, max_uwh, design_uwh) = match (
        parse_attr::<i64>(&f.energy_now),
        parse_attr::<i64>(&f.energy_full),
    ) {
        (Some(c), Some(m)) => {
            let d = match parse_attr::<i64>(&f.energy_full_design) {
                Some(d) => d,
                None => m,
            };
            (c, m, d)
        },
        _ => match (parse_attr::<i64>(&f.charge_now), parse_attr::<i64>(&f.charge_full)) {
            (Some(c), Some(m)) => {
                let d = match parse_attr::<i64>(&f.charge_full_design) {
                    Some(d) => d,
                    None => m,
                };
                let v = if voltage_uv > 3_700_000 {
                    voltage_uv
                } else {
                    3_700_000
                };
                let scale: i128 = v as i128 / 1_000_000;
                (scaled(c, scale), scaled(m, scale), scaled(d, scale))
            },
            _ => (0, 0, 0),
        },
    };
    let capacity_pct = parse_attr::<u32>(&f.capacity);
    let cycle_count = or_zero_of(parse_attr::<i64>(&f.cycle_count));
    let temp_decidegrees = parse_attr::<i64>(&f.temp);
    let headroom_uwh = if charging {
        let d: i128 = max_uwh as i128 - current_uwh as i128;
        if d > i64::MAX as i128 {
            i64::MAX
        } else if d < i64::MIN as i128 {
            i64::MIN
        } else {
            d as i64
        }
    } else {
        current_uwh
    };
    BatteryReading {
        charging,
        voltage_uv,
        drain_uw,
        current_ua,
        current_uwh,
        max_uwh,
        design_uwh,
        capacity_pct,
        cycle_count,
        temp_decidegrees,
        headroom_uwh,
        current_capacity_mwh: current_uwh / 1000,
        max_capacity_mwh: max_uwh / 1000,
    }
}

/// The raw contents of a mains adapter's attribute files.
#[derive(Debug, Clone)]
pub struct AdapterFiles {
    pub online: Option<String>,
    pub input_power_now: Option<String>,
    pub power_now: Option<String>,
    pub voltage_now: Option<String>,
    pub current_now: Option<String>,
}

/// The integer readings of an online adapter; the caller rounds the watts.
#[derive(Debug, Clone, Copy)]
pub struct AdapterReading {
    pub power_uw: i64,
    pub voltage_uv: i64,
    pub current_ua: i64,
    pub voltage_mv: u32,
    pub current_ma: u32,
}

pub open spec fn adapter_of(a: AdapterFiles) -> AdapterReading {
    let v = or_zero(attr_i64(a.voltage_now));
    let c = or_zero(attr_i64(a.current_now));
    AdapterReading {
        power_uw: match attr_i64(a.input_power_now) {
            Some(p) => p,
            None => or_zero(attr_i64(a.power_now)),
        },
        voltage_uv: v,
        current_ua: c,
        voltage_mv: div_trunc(v as int, 1000) as u32,
        current_ma: div_trunc(c as int, 1000) as u32,
    }
}

/// The first adapter (in the given order) whose `online` reads non-zero.
pub open spec fn first_online(adapters: Seq<AdapterFiles>) -> Option<AdapterReading>
    decreases adapters.len(),
{
    if adapters.len() == 0 {
        None
    } else if or_zero(attr_i64(adapters[0].online)) != 0 {
        Some(adapter_of(adapters[0]))
    } else {
        first_online(adapters.drop_first())
    }
}

/// Reads the first online mains adapter; `None` when none is online.
pub fn read_adapter(mains: &Vec<AdapterFiles>) -> (r: Option<AdapterReading>)
    ensures
        r == first_online(mains@),
{
    let n = mains.len();
    let mut k: usize = 0;
    assert(mains@.skip(0) =~= mains@);
    while k < n
        invariant
            n == mains.len(),
            k <= n,
            first_online(mains@) == first_online(mains@.skip(k as int)),
        decreases n - k,
    {
        assert(mains@.skip(k as int)[0] == mains@[k as int]);
        assert(mains@.skip(k as int).drop_first() =~= mains@.skip(k + 1));
        let a = &mains[k];
        let online = or_zero_of(parse_attr::<i64>(&a.online));
        if online != 0 {
            let power_uw = match parse_attr::<i64>(&a.input_power_now) {
                Some(p) => p,
                None => or_zero_of(parse_attr::<i64>(&a.power_now)),
            };
            let voltage_uv = or_zero_of(parse_attr::<i64>(&a.voltage_now));
            let current_ua = or_zero_of(parse_attr::<i64>(&a.current_now));
            return Some(
                AdapterReading {
                    power_uw,
                    voltage_uv,
                    current_ua,
                    voltage_mv: (voltage_uv / 1000) as u32,
                    current_ma: (current_ua / 1000) as u32,
                },
            );
        }
        k += 1;
    }
    assert(mains@.skip(n as int) =~= Seq::<AdapterFiles>::empty());
    None
}

/// A battery counts as charging exactly when its trimmed status is
/// `Charging` or `Full`; a charging battery's headroom is what is left to
/// charge (full minus present capacity), a discharging one's is its present
/// capacity.
pub proof fn lemma_charging_status(f: BatteryFiles)
    ensures
        battery_of(f).charging == (content_or_empty(opt_string_view(f.status)) == "Charging"@
            || content_or_empty(opt_string_view(f.status)) == "Full"@),
        content_or_empty(opt_string_view(f.status)) == "Full"@ ==> battery_of(f).charging,
        battery_of(f).charging ==> battery_of(f).headroom_uwh as int == if battery_of(f).max_uwh
            - battery_of(f).current_uwh > i64::MAX {
            i64::MAX as int
        } else if battery_of(f).max_uwh - battery_of(f).current_uwh < i64::MIN {
            i64::MIN as int
        } else {
            battery_of(f).max_uwh - battery_of(f).current_uwh
        },
        !battery_of(f).charging ==> battery_of(f).headroom_uwh == battery_of(f).current_uwh,
{
}

/// Where the capacities come from: `energy_now`/`energy_full` (µWh) when
/// both parse, the design capacity defaulting to the full one; else
/// `charge_now`/`charge_full` (µAh) times the voltage in whole volts, at
/// least 3 (3.7 V assumed below that); else zeros. The drain is the magnitude of
/// `power_now` (0 when unreadable), and the present and full capacities in
/// mWh are the µWh ones divided by 1000, rounded toward zero.
pub proof fn lemma_battery_sources(f: BatteryFiles)
    ensures
        (attr_i64(f.energy_now), attr_i64(f.energy_full)) matches (Some(c), Some(m)) ==> {
            &&& battery_of(f).current_uwh == c
            &&& battery_of(f).max_uwh == m
            &&& battery_of(f).design_uwh == match attr_i64(f.energy_full_design) {
                Some(d) => d,
                None => m,
            }
        },
        !((attr_i64(f.energy_now), attr_i64(f.energy_full)) matches (Some(_), Some(_))) && !((
            attr_i64(f.charge_now),
            attr_i64(f.charge_full),
        ) matches (Some(_), Some(_))) ==> battery_of(f).current_uwh == 0 && battery_of(f).max_uwh == 0
            && battery_of(f).design_uwh == 0,
        (attr_i64(f.energy_now) is None || attr_i64(f.energy_full) is None) ==> ((
            attr_i64(f.charge_now),
            attr_i64(f.charge_full),
        ) matches (Some(c), Some(m)) ==> {
            let v = or_zero(attr_i64(f.voltage_now));
            let volts = (if v > 3_700_000 {
                v
            } else {
                3_700_000
            }) / 1_000_000;
            &&& 3 <= volts
            &&& battery_of(f).current_uwh == (c * volts) as i64
            &&& battery_of(f).max_uwh == (m * volts) as i64
        }),
        battery_of(f).drain_uw as int == if or_zero(attr_i64(f.power_now)) >= 0 {
            or_zero(attr_i64(f.power_now)) as int
        } else {
            -(or_zero(attr_i64(f.power_now)) as int)
        },
        battery_of(f).current_capacity_mwh as int * 1000 + (battery_of(f).current_uwh as int - battery_of(
            f,
        ).current_capacity_mwh as int * 1000) == battery_of(f).current_uwh,
        battery_of(f).current_uwh >= 0 ==> battery_of(f).current_capacity_mwh == battery_of(f).current_uwh
            / 1000,
        battery_of(f).max_uwh >= 0 ==> battery_of(f).max_capacity_mwh == battery_of(f).max_uwh / 1000,
{
}

} // verus!
