//! hwmon discovery and classification: temperature sensors and fans.
use vstd::prelude::*;
use crate::cpufreq::CpuTopology;
use crate::sysfs::{content_or_empty, opt_string_view, parse_attr, parsed, read_string_or_empty};
use crate::table::{lookup, NameTable};
use crate::text::{
    contains, decimal, eq_str, has_substring, parse_u32, parse_u32_chars, push_char, push_decimal,
    push_str, starts_with, string_of, strip_prefix_str, to_chars, to_string,
};

verus! {

/// One discovered hwmon device, with its driver `name`.
#[derive(Debug, Clone)]
pub struct HwmonDevice {
    pub path: String,
    pub name: String,
}

/// A directory under `/sys/class/hwmon` and the raw content of its `name`
/// file (`None` when it could not be read).
#[derive(Debug, Clone)]
pub struct HwmonEntry {
    pub path: String,
    pub name_raw: Option<String>,
}

/// The devices that `enumerate` keeps: those whose trimmed name is not empty.
pub open spec fn devices_of(es: Seq<HwmonEntry>) -> Seq<(Seq<char>, Seq<char>)>
    decreases es.len(),
{
    if es.len() == 0 {
        Seq::empty()
    } else {
        let name = content_or_empty(opt_string_view(es.last().name_raw));
        let prior = devices_of(es.drop_last());
        if name.len() == 0 {
            prior
        } else {
            prior.push((es.last().path@, name))
        }
    }
}

pub open spec fn device_views(ds: Seq<HwmonDevice>) -> Seq<(Seq<char>, Seq<char>)> {
    ds.map_values(|d: HwmonDevice| (d.path@, d.name@))
}

/// The hwmon devices among `entries` (in directory order) that have a name.
pub fn enumerate(entries: &Vec<HwmonEntry>) -> (r: Vec<HwmonDevice>)
    ensures
        device_views(r@) == devices_of(entries@),
{
    let mut out: Vec<HwmonDevice> = Vec::new();
    let n = entries.len();
    for k in 0..n
        invariant
            n == entries.len(),
            device_views(out@) == devices_of(entries@.take(k as int)),
    {
        assert(entries@.take(k + 1).drop_last() =~= entries@.take(k as int));
        let e = &entries[k];
        let name = read_string_or_empty(&e.name_raw);
        if name.len() > 0 {
            let ghost before = out@;
            out.push(HwmonDevice { path: e.path.clone(), name: to_string(&name) });
            assert(device_views(out@) =~= device_views(before).push((e.path@, name@)));
        }
    }
    assert(entries@.take(n as int) =~= entries@);
    out
}

/// One `tempN_input` file that exists: its index `N`, and the raw contents
/// of `tempN_input` and `tempN_label` (`None` where a file could not be read).
#[derive(Debug, Clone)]
pub struct TempInput {
    pub index: u32,
    pub raw: Option<String>,
    pub label: Option<String>,
}

/// What `read_temp_input` gives: the trimmed label (or `""`) and the reading
/// in millidegrees, `None` when the reading does not parse.
pub open spec fn temp_input_of(t: TempInput) -> Option<(Seq<char>, i64)> {
    match parsed::<i64>(opt_string_view(t.raw)) {
        Some(v) => Some((content_or_empty(opt_string_view(t.label)), v)),
        None => None,
    }
}

/// Reads one temperature input: (label, millidegrees Celsius).
pub fn read_temp_input(t: &TempInput) -> (r: Option<(String, i64)>)
    ensures
        match r {
            Some((l, v)) => temp_input_of(*t) == Some((l@, v)),
            None => temp_input_of(*t) is None,
        },
{
    let raw = match parse_attr::<i64>(&t.raw) {
        Some(v) => v,
        None => return None,
    };
    let label = read_string_or_empty(&t.label);
    Some((to_string(&label), raw))
}

/// The readings of `iter_temps`: index, label and millidegrees of each input
/// that parses, in order.
pub open spec fn temps_of(ts: Seq<TempInput>) -> Seq<(u32, Seq<char>, i64)>
    decreases ts.len(),
{
    if ts.len() == 0 {
        Seq::empty()
    } else {
        match temp_input_of(ts.last()) {
            Some((l, v)) => temps_of(ts.drop_last()).push((ts.last().index, l, v)),
            None => temps_of(ts.drop_last()),
        }
    }
}

pub open spec fn temp_views(v: Seq<(u32, String, i64)>) -> Seq<(u32, Seq<char>, i64)> {
    v.map_values(|t: (u32, String, i64)| (t.0, t.1@, t.2))
}

/// All temperature inputs of one device that give a reading.
pub fn iter_temps(ts: &Vec<TempInput>) -> (r: Vec<(u32, String, i64)>)
    ensures
        temp_views(r@) == temps_of(ts@),
{
    let mut out: Vec<(u32, String, i64)> = Vec::new();
    let n = ts.len();
    for k in 0..n
        invariant
            n == ts.len(),
            temp_views(out@) == temps_of(ts@.take(k as int)),
    {
        assert(ts@.take(k + 1).drop_last() =~= ts@.take(k as int));
        assert(ts@.take(k + 1).last() == ts@[k as int]);
        match read_temp_input(&ts[k]) {
            Some((label, v)) => {
                let ghost before = out@;
                out.push((ts[k].index, label, v));
                assert(temp_views(out@) =~= temp_views(before).push((ts@[k as int].index, label@, v)));
            },
            None => {},
        }
    }
    assert(ts@.take(n as int) =~= ts@);
    out
}

/// The position of the first `x` in `s`.
pub open spec fn index_of(s: Seq<u32>, x: u32) -> Option<int>
    decreases s.len(),
{
    if s.len() == 0 {
        None
    } else {
        match index_of(s.drop_last(), x) {
            Some(i) => Some(i),
            None => if s.last() == x {
                Some(s.len() - 1)
            } else {
                None
            },
        }
    }
}

fn position_of(v: &Vec<u32>, x: u32) -> (r: Option<usize>)
    ensures
        match r {
            Some(i) => index_of(v@, x) == Some(i as int),
            None => index_of(v@, x) is None,
        },
{
    let n = v.len();
    let mut i: usize = 0;
    while i < n
        invariant
            n == v.len(),
            i <= n,
            index_of(v@.take(i as int), x) is None,
        decreases n - i,
    {
        assert(v@.take(i + 1).drop_last() =~= v@.take(i as int));
        if v[i] == x {
            proof {
                lemma_index_of_prefix(v@, i as int + 1, x);
            }
            return Some(i);
        }
        i += 1;
    }
    assert(v@.take(n as int) =~= v@);
    None
}

proof fn lemma_index_of_prefix(s: Seq<u32>, j: int, x: u32)
    requires
        0 < j <= s.len(),
        index_of(s.take(j), x) is Some,
    ensures
        index_of(s, x) == index_of(s.take(j), x),
    decreases s.len() - j,
{
    if j < s.len() {
        assert(s.take(j + 1).drop_last() =~= s.take(j));
        lemma_index_of_prefix(s, j + 1, x);
    } else {
        assert(s.take(j) =~= s);
    }
}

/// The base-62 digit for `pos`: '0'-'9', 'a'-'z', 'A'-'Z'.
pub open spec fn base62(pos: int) -> Option<char> {
    if 0 <= pos < 10 {
        Some((('0' as int) + pos) as char)
    } else if 10 <= pos < 36 {
        Some((('a' as int) + pos - 10) as char)
    } else if 36 <= pos < 62 {
        Some((('A' as int) + pos - 36) as char)
    } else {
        None
    }
}

/// Maps base62 position (0..62) to a single character: '0'-'9', 'a'-'z', 'A'-'Z'.
pub fn base62_char(pos: usize) -> (r: Option<char>)
    ensures
        r == base62(pos as int),
{
    let c = if pos < 10 {
        (48u8 + pos as u8) as char
    } else if pos < 36 {
        (97u8 + (pos - 10) as u8) as char
    } else if pos < 62 {
        (65u8 + (pos - 36) as u8) as char
    } else {
        return None;
    };
    Some(c)
}

/// Distinct positions give distinct digits: the keys that
/// `coretemp_key` builds for different cores of one cluster never collide.
pub proof fn lemma_base62_injective(a: int, b: int)
    requires
        base62(a) is Some,
        base62(a) == base62(b),
    ensures
        a == b,
{
}

/// The cluster kind and position of a core, when the topology knows it.
pub open spec fn core_slot(cpu: u32, topo: CpuTopology) -> Option<(char, int)> {
    if topo.spec_is_hybrid() {
        match index_of(topo.pcpus@, cpu) {
            Some(i) => Some(('p', i)),
            None => match index_of(topo.ecpus@, cpu) {
                Some(i) => Some(('e', i)),
                None => None,
            },
        }
    } else {
        match index_of(topo.all@, cpu) {
            Some(i) => Some(('p', i)),
            None => None,
        }
    }
}

/// The SMC-style key `T<kind>0<pos>` for a coretemp `Core N` label.
pub open spec fn coretemp_key_of(label: Seq<char>, topo: CpuTopology) -> Option<Seq<char>> {
    if !starts_with(label, "Core "@) {
        None
    } else {
        match parse_u32(label.skip("Core "@.len() as int)) {
            None => None,
            Some(cpu) => match core_slot(cpu, topo) {
                None => None,
                Some((kind, pos)) => match base62(pos) {
                    None => None,
                    Some(c) => Some(seq!['T', kind, '0', c]),
                },
            },
        }
    }
}

/// Maps a coretemp "Core N" label to its hybrid kind (P/E) and position within
/// the cluster, returning the SMC-style key that the app's CPU-temp parser expects.
pub fn coretemp_key(label: &str, topo: &CpuTopology) -> (r: Option<(String, &'static str)>)
    ensures
        match r {
            Some((k, c)) => coretemp_key_of(label@, *topo) == Some(k@) && c@ == "CPU"@,
            None => coretemp_key_of(label@, *topo) is None,
        },
{
    let lc = to_chars(label);
    let rest = match strip_prefix_str(&lc, "Core ") {
        Some(r) => r,
        None => return None,
    };
    let cpu = match parse_u32_chars(&rest) {
        Some(c) => c,
        None => return None,
    };
    let (kind, pos) = if topo.is_hybrid() {
        match position_of(&topo.pcpus, cpu) {
            Some(i) => ('p', i),
            None => match position_of(&topo.ecpus, cpu) {
                Some(i) => ('e', i),
                None => return None,
            },
        }
    } else {
        match position_of(&topo.all, cpu) {
            Some(i) => ('p', i),
            None => return None,
        }
    };
    let suffix = match base62_char(pos) {
        Some(c) => c,
        None => return None,
    };
    let mut key = String::new();
    push_char(&mut key, 'T');
    push_char(&mut key, kind);
    push_char(&mut key, '0');
    push_char(&mut key, suffix);
    assert(key@ =~= seq!['T', kind, '0', suffix]);
    Some((key, "CPU"))
}

/// Temperature inputs of one hwmon device: its driver name and its inputs.
#[derive(Debug, Clone)]
pub struct HwmonTemps {
    pub name: String,
    pub temps: Vec<TempInput>,
}

/// One classified temperature sensor.
#[derive(Debug, Clone)]
pub struct TempReading {
    pub key: String,
    pub category: String,
    pub millicelsius: i64,
}

pub open spec fn is_cpu_driver(name: Seq<char>) -> bool {
    name == "coretemp"@ || name == "k10temp"@ || name == "zenpower"@
}

/// Key and category of reading `idx` with label `label` on a device named
/// `name`; `None` when the sensor is not reported.
pub open spec fn temp_key_of(topo: CpuTopology, name: Seq<char>, idx: u32, label: Seq<char>) -> Option<
    (Seq<char>, Seq<char>),
> {
    if is_cpu_driver(name) {
        match coretemp_key_of(label, topo) {
            Some(k) => Some((k, "CPU"@)),
            None => if label == "Package id 0"@ || contains(label, "Tdie"@) {
                Some(("Tp00"@, "CPU"@))
            } else {
                None
            },
        }
    } else if name == "nvme"@ {
        Some(
            (
                if label.len() == 0 {
                    "nvme"@ + decimal(idx as nat)
                } else {
                    label
                },
                "SSD"@,
            ),
        )
    } else if starts_with(name, "iwlwifi"@) {
        Some(("WiFi"@ + decimal(idx as nat), "WiFi"@))
    } else if name == "thinkpad"@ {
        Some(
            (
                if label.len() == 0 {
                    "ThinkPad"@ + decimal(idx as nat)
                } else {
                    label
                },
                "Other"@,
            ),
        )
    } else if name == "acpitz"@ {
        Some(("acpitz"@ + decimal(idx as nat), "Chassis"@))
    } else {
        Some((name + decimal(idx as nat), "Other"@))
    }
}

/// The readings of one device, in input order.
pub open spec fn device_readings(topo: CpuTopology, name: Seq<char>, ts: Seq<(u32, Seq<char>, i64)>) -> Seq<
    (Seq<char>, Seq<char>, i64),
>
    decreases ts.len(),
{
    if ts.len() == 0 {
        Seq::empty()
    } else {
        let t = ts.last();
        let prior = device_readings(topo, name, ts.drop_last());
        match temp_key_of(topo, name, t.0, t.1) {
            Some((k, c)) => prior.push((k, c, t.2)),
            None => prior,
        }
    }
}

/// The readings of all devices, device by device.
pub open spec fn readings_of(topo: CpuTopology, ds: Seq<HwmonTemps>) -> Seq<(Seq<char>, Seq<char>, i64)>
    decreases ds.len(),
{
    if ds.len() == 0 {
        Seq::empty()
    } else {
        readings_of(topo, ds.drop_last()) + device_readings(
            topo,
            ds.last().name@,
            temps_of(ds.last().temps@),
        )
    }
}

pub open spec fn reading_views(v: Seq<TempReading>) -> Seq<(Seq<char>, Seq<char>, i64)> {
    v.map_values(|t: TempReading| (t.key@, t.category@, t.millicelsius))
}

fn temp_key(topo: &CpuTopology, name: &Vec<char>, name_s: &String, idx: u32, label: &String) -> (r:
    Option<(String, String)>)
    requires
        name@ == name_s@,
    ensures
        match r {
            Some((k, c)) => temp_key_of(*topo, name@, idx, label@) == Some((k@, c@)),
            None => temp_key_of(*topo, name@, idx, label@) is None,
        },
{
    if eq_str(name, "coretemp") || eq_str(name, "k10temp") || eq_str(name, "zenpower") {
        match coretemp_key(label.as_str(), topo) {
            Some((k, _)) => Some((k, string_of("CPU"))),
            None => {
                let lc = to_chars(label.as_str());
                if eq_str(&lc, "Package id 0") || has_substring(&lc, &to_chars("Tdie")) {
                    Some((string_of("Tp00"), string_of("CPU")))
                } else {
                    None
                }
            },
        }
    } else if eq_str(name, "nvme") {
        let key = if label.as_str().is_empty() {
            let mut k = string_of("nvme");
            push_decimal(&mut k, idx as u64);
            k
        } else {
            label.clone()
        };
        Some((key, string_of("SSD")))
    } else if crate::text::starts_with_str(name, "iwlwifi") {
        let mut k = string_of("WiFi");
        push_decimal(&mut k, idx as u64);
        Some((k, string_of("WiFi")))
    } else if eq_str(name, "thinkpad") {
        let key = if label.as_str().is_empty() {
            let mut k = string_of("ThinkPad");
            push_decimal(&mut k, idx as u64);
            k
        } else {
            label.clone()
        };
        Some((key, string_of("Other")))
    } else if eq_str(name, "acpitz") {
        let mut k = string_of("acpitz");
        push_decimal(&mut k, idx as u64);
        Some((k, string_of("Chassis")))
    } else {
        let mut k = name_s.clone();
        push_decimal(&mut k, idx as u64);
        Some((k, string_of("Other")))
    }
}

/// Classifies the temperature sensors of all devices (in enumeration order)
/// into keyed readings.
pub fn read_temperatures(topo: &CpuTopology, devices: &Vec<HwmonTemps>) -> (r: Vec<TempReading>)
    ensures
        reading_views(r@) == readings_of(*topo, devices@),
{
    let mut out: Vec<TempReading> = Vec::new();
    let n = devices.len();
    for d in 0..n
        invariant
            n == devices.len(),
            reading_views(out@) == readings_of(*topo, devices@.take(d as int)),
    {
        assert(devices@.take(d + 1).drop_last() =~= devices@.take(d as int));
        let dev = &devices[d];
        let temps = iter_temps(&dev.temps);
        let name = to_chars(dev.name.as_str());
        let ghost base = out@;
        let ghost ts = temp_views(temps@);
        let m = temps.len();
        for j in 0..m
            invariant
                m == temps.len(),
                ts == temp_views(temps@),
                name@ == dev.name@,
                reading_views(out@) == reading_views(base) + device_readings(
                    *topo,
                    name@,
                    ts.take(j as int),
                ),
        {
            assert(ts.take(j + 1).drop_last() =~= ts.take(j as int));
            assert(ts.take(j + 1).last() == ts[j as int]);
            let (idx, label, v) = (temps[j].0, &temps[j].1, temps[j].2);
            match temp_key(topo, &name, &dev.name, idx, label) {
                Some((key, category)) => {
                    let ghost before = out@;
                    out.push(TempReading { key, category, millicelsius: v });
                    assert(reading_views(out@) =~= reading_views(before).push((key@, category@, v)));
                    assert(reading_views(out@) =~= reading_views(base) + device_readings(
                        *topo,
                        name@,
                        ts.take(j + 1),
                    ));
                },
                None => {},
            }
        }
        assert(ts.take(m as int) =~= ts);
        assert(reading_views(out@) =~= readings_of(*topo, devices@.take(d + 1)));
    }
    assert(devices@.take(n as int) =~= devices@);
    out
}

/// One `fanN_input` file that exists: its index `N`, and the raw contents
/// of `fanN_input` and `fanN_label` (`None` where a file could not be read).
#[derive(Debug, Clone)]
pub struct FanInput {
    pub index: u32,
    pub raw: Option<String>,
    pub label: Option<String>,
}

/// Fan inputs of one hwmon device: its driver name and its inputs.
#[derive(Debug, Clone)]
pub struct FanDevice {
    pub name: String,
    pub fans: Vec<FanInput>,
}

/// One fan: its running number, display name, speed and the largest speed
/// seen for it this session (at least 1).
#[derive(Debug, Clone)]
pub struct FanReading {
    pub id: u32,
    pub name: String,
    pub rpm: u64,
    pub max_rpm: u64,
}

/// The speed a fan input reports: negative readings count as 0, and so does
/// an input that does not parse.
pub open spec fn fan_rpm(f: FanInput) -> u64 {
    match parsed::<i64>(opt_string_view(f.raw)) {
        Some(v) => if v > 0 {
            v as u64
        } else {
            0
        },
        None => 0,
    }
}

/// The display name of a fan: its label, else `Fan` / `Fan N`.
pub open spec fn fan_name(f: FanInput) -> Seq<char> {
    let l = content_or_empty(opt_string_view(f.label));
    if l.len() == 0 {
        if f.index == 1 {
            "Fan"@
        } else {
            "Fan "@ + decimal(f.index as nat)
        }
    } else {
        l
    }
}

/// The key under which the largest speed of a fan is remembered.
pub open spec fn fan_key(dev: Seq<char>, f: FanInput) -> Seq<char> {
    dev + ":"@ + decimal(f.index as nat)
}

/// Every fan input of every device, with its device's name, in order.
pub open spec fn fan_items(ds: Seq<FanDevice>) -> Seq<(Seq<char>, FanInput)>
    decreases ds.len(),
{
    if ds.len() == 0 {
        Seq::empty()
    } else {
        fan_items(ds.drop_last()) + dev_fan_items(ds.last())
    }
}

pub open spec fn dev_fan_items(d: FanDevice) -> Seq<(Seq<char>, FanInput)> {
    d.fans@.map_values(|f: FanInput| (d.name@, f))
}

pub open spec fn max1(x: u64) -> u64 {
    if x > 1 {
        x
    } else {
        1
    }
}

/// The table of largest speeds and the readings after processing `items`,
/// starting from the table `m0`.
pub open spec fn fans_fold(m0: Map<Seq<char>, u64>, items: Seq<(Seq<char>, FanInput)>) -> (
    Map<Seq<char>, u64>,
    Seq<(u32, Seq<char>, u64, u64)>,
)
    decreases items.len(),
{
    if items.len() == 0 {
        (m0, Seq::empty())
    } else {
        let (m, rs) = fans_fold(m0, items.drop_last());
        let (dn, f) = items.last();
        let rpm = fan_rpm(f);
        let key = fan_key(dn, f);
        let prev = match lookup(m, key) {
            Some(p) => p,
            None => rpm,
        };
        let top = if rpm > prev {
            rpm
        } else {
            prev
        };
        (m.insert(key, top), rs.push((rs.len() as u32, fan_name(f), rpm, max1(top))))
    }
}

pub open spec fn fan_views(v: Seq<FanReading>) -> Seq<(u32, Seq<char>, u64, u64)> {
    v.map_values(|r: FanReading| (r.id, r.name@, r.rpm, r.max_rpm))
}

proof fn lemma_fans_fold(m0: Map<Seq<char>, u64>, items: Seq<(Seq<char>, FanInput)>)
    ensures
        fans_fold(m0, items).1.len() == items.len(),
        forall|k: Seq<char>| #[trigger] m0.contains_key(k) ==> fans_fold(m0, items).0.contains_key(k)
            && fans_fold(m0, items).0[k] >= m0[k],
        forall|i: int| 0 <= i < items.len() ==> (#[trigger] fans_fold(m0, items).1[i]).2 <= fans_fold(
            m0,
            items,
        ).1[i].3 && fans_fold(m0, items).1[i].3 >= 1,
    decreases items.len(),
{
    if items.len() > 0 {
        lemma_fans_fold(m0, items.drop_last());
    }
}

/// The key of a fan item.
pub open spec fn item_key(it: (Seq<char>, FanInput)) -> Seq<char> {
    fan_key(it.0, it.1)
}

/// The session maximum of a fan after a reading of `rpm`: the larger of
/// the remembered maximum (the reading itself when there is none) and the
/// reading.
pub open spec fn session_max(m: Map<Seq<char>, u64>, k: Seq<char>, rpm: u64) -> u64 {
    let prev = match lookup(m, k) {
        Some(p) => p,
        None => rpm,
    };
    if rpm > prev {
        rpm
    } else {
        prev
    }
}

/// Fan by fan, when no two fans share a key: each fan's remembered maximum
/// becomes its session maximum with this reading, its reading shows its
/// speed and that maximum (at least 1), and the remembered maxima of fans
/// not read stay as they were.
pub proof fn lemma_fan_session_max(m0: Map<Seq<char>, u64>, items: Seq<(Seq<char>, FanInput)>)
    requires
        forall|i: int, j: int| 0 <= i < j < items.len() ==> item_key(#[trigger] items[i]) != item_key(#[trigger] items[j]),
    ensures
        fans_fold(m0, items).1.len() == items.len(),
        forall|i: int|
            0 <= i < items.len() ==> {
                let k = item_key(#[trigger] items[i]);
                let top = session_max(m0, k, fan_rpm(items[i].1));
                &&& fans_fold(m0, items).0.contains_key(k)
                &&& fans_fold(m0, items).0[k] == top
                &&& fans_fold(m0, items).1[i] == (i as u32, fan_name(items[i].1), fan_rpm(items[i].1), max1(top))
            },
        forall|k: Seq<char>|
            (forall|i: int| 0 <= i < items.len() ==> item_key(#[trigger] items[i]) != k) ==> lookup(
                #[trigger] fans_fold(m0, items).0,
                k,
            ) == lookup(m0, k),
    decreases items.len(),
{
    lemma_fans_fold(m0, items);
    if items.len() > 0 {
        let it2 = items.drop_last();
        assert forall|i: int, j: int| 0 <= i < j < it2.len() implies item_key(#[trigger] it2[i]) != item_key(#[trigger] it2[j]) by {
            assert(it2[i] == items[i] && it2[j] == items[j]);
        }
        lemma_fan_session_max(m0, it2);
        let n = items.len() - 1;
        let kl = item_key(items[n]);
        assert forall|i: int| 0 <= i < it2.len() implies item_key(#[trigger] it2[i]) != kl by {
            assert(it2[i] == items[i]);
        }
        let (m, rs) = fans_fold(m0, it2);
        assert(lookup(m, kl) == lookup(m0, kl));
        assert forall|i: int| 0 <= i < items.len() implies {
            let k = item_key(#[trigger] items[i]);
            let top = session_max(m0, k, fan_rpm(items[i].1));
            &&& fans_fold(m0, items).0.contains_key(k)
            &&& fans_fold(m0, items).0[k] == top
            &&& fans_fold(m0, items).1[i] == (i as u32, fan_name(items[i].1), fan_rpm(items[i].1), max1(top))
        } by {
            if i < n {
                assert(it2[i] == items[i]);
                assert(item_key(it2[i]) != kl);
            }
        }
        assert forall|k: Seq<char>|
            (forall|i: int| 0 <= i < items.len() ==> item_key(#[trigger] items[i]) != k) implies lookup(
                #[trigger] fans_fold(m0, items).0,
                k,
            ) == lookup(m0, k) by {
            assert(item_key(items[n]) != k);
            assert forall|i: int| 0 <= i < it2.len() implies item_key(#[trigger] it2[i]) != k by {
                assert(it2[i] == items[i]);
            }
        }
    }
}

fn fan_name_of(f: &FanInput) -> (r: String)
    ensures
        r@ == fan_name(*f),
{
    let l = read_string_or_empty(&f.label);
    if l.len() == 0 {
        if f.index == 1 {
            string_of("Fan")
        } else {
            let mut n = string_of("Fan ");
            push_decimal(&mut n, f.index as u64);
            n
        }
    } else {
        to_string(&l)
    }
}

/// Reads all fans across hwmon devices. For each fan the result gives its
/// speed and the largest speed seen for it this session, which `max_seen`
/// remembers between calls.
pub fn read_fans(devices: &Vec<FanDevice>, max_seen: &mut NameTable<u64>) -> (r: Vec<FanReading>)
    requires
        old(max_seen).wf(),
        fan_items(devices@).len() <= u32::MAX,
    ensures
        final(max_seen).wf(),
        (final(max_seen).map(), fan_views(r@)) == fans_fold(old(max_seen).map(), fan_items(devices@)),
        forall|k: Seq<char>| #[trigger] old(max_seen).map().contains_key(k) ==> final(max_seen).map().contains_key(k)
            && final(max_seen).map()[k] >= old(max_seen).map()[k],
        forall|i: int| 0 <= i < r@.len() ==> (#[trigger] r@[i]).rpm <= r@[i].max_rpm && r@[i].max_rpm >= 1,
{
    let ghost m0 = max_seen.map();
    let mut out: Vec<FanReading> = Vec::new();
    let mut fan_id: u32 = 0;
    let n = devices.len();
    for d in 0..n
        invariant
            n == devices.len(),
            max_seen.wf(),
            fan_items(devices@).len() <= u32::MAX,
            fan_id == out@.len(),
            (max_seen.map(), fan_views(out@)) == fans_fold(m0, fan_items(devices@.take(d as int))),
    {
        assert(devices@.take(d + 1).drop_last() =~= devices@.take(d as int));
        let dev = &devices[d];
        let ghost done = fan_items(devices@.take(d as int));
        let ghost mine = dev_fan_items(*dev);
        proof {
            lemma_fan_items_prefix(devices@, d as int + 1);
        }
        let m = dev.fans.len();
        for j in 0..m
            invariant
                m == dev.fans.len(),
                mine == dev_fan_items(*dev),
                max_seen.wf(),
                fan_items(devices@).len() <= u32::MAX,
                done.len() + mine.len() <= fan_items(devices@).len(),
                fan_id == out@.len(),
                (max_seen.map(), fan_views(out@)) == fans_fold(m0, done + mine.take(j as int)),
        {
            let ghost items = done + mine.take(j + 1);
            assert(items.drop_last() =~= done + mine.take(j as int));
            assert(items.last() == (dev.name@, dev.fans@[j as int]));
            proof {
                lemma_fans_fold(m0, done + mine.take(j as int));
            }
            let f = &dev.fans[j];
            let rpm: u64 = match parse_attr::<i64>(&f.raw) {
                Some(v) => if v > 0 {
                    v as u64
                } else {
                    0
                },
                None => 0,
            };
            let name = fan_name_of(f);
            let mut key = dev.name.clone();
            push_str(&mut key, ":");
            push_decimal(&mut key, f.index as u64);
            let kc = to_chars(key.as_str());
            let prev = match max_seen.get(&kc) {
                Some(p) => p,
                None => rpm,
            };
            let top = if rpm > prev {
                rpm
            } else {
                prev
            };
            max_seen.insert(key, top);
            let max_rpm = if top > 1 {
                top
            } else {
                1
            };
            let ghost before = out@;
            out.push(FanReading { id: fan_id, name, rpm, max_rpm });
            assert(fan_views(out@) =~= fan_views(before).push((fan_id, fan_name(*f), rpm, max_rpm)));
            fan_id += 1;
        }
        assert(mine.take(m as int) =~= mine);
    }
    assert(devices@.take(n as int) =~= devices@);
    proof {
        lemma_fans_fold(m0, fan_items(devices@));
        assert forall|i: int| 0 <= i < out@.len() implies (#[trigger] out@[i]).rpm <= out@[i].max_rpm && out@[i].max_rpm >= 1 by {
            assert(fan_views(out@)[i] == fans_fold(m0, fan_items(devices@)).1[i]);
        }
    }
    out
}

proof fn lemma_fan_items_prefix(ds: Seq<FanDevice>, d: int)
    requires
        0 < d <= ds.len(),
    ensures
        fan_items(ds.take(d)) == fan_items(ds.take(d - 1)) + dev_fan_items(ds[d - 1]),
        fan_items(ds.take(d)).len() <= fan_items(ds).len(),
    decreases ds.len() - d,
{
    assert(ds.take(d).drop_last() =~= ds.take(d - 1));
    if d < ds.len() {
        lemma_fan_items_prefix(ds, d + 1);
    } else {
        assert(ds.take(d) =~= ds);
    }
}

} // verus!
