//! Block devices: `/sys/block/<dev>/stat` byte counters and the SSD model.
use vstd::prelude::*;
use crate::sysfs::{content_or_empty, opt_string_view, opt_view, read_string_or_empty};
use crate::text::{
    eq_str, parse_u64, parse_u64_chars, split_ws, starts_with, starts_with_str, to_chars,
    to_string, tokens, trim, trim_chars, vec_eq, views,
};

verus! {

/// Bytes per sector in `/sys/block/<dev>/stat`.
pub const SECTOR_BYTES: u64 = 512;

/// Cumulative bytes read and written.
#[derive(Debug, Clone, Copy, PartialEq, Eq)]
pub struct DiskStats {
    pub read_bytes: u64,
    pub write_bytes: u64,
}

impl Default for DiskStats {
    fn default() -> (r: Self)
        ensures
            r == (DiskStats { read_bytes: 0, write_bytes: 0 }),
    {
        DiskStats { read_bytes: 0, write_bytes: 0 }
    }
}

/// NVMe and SATA disks are kept; loop, zram, device-mapper and md devices
/// are not.
pub open spec fn is_disk(name: Seq<char>) -> bool {
    !(starts_with(name, "loop"@) || starts_with(name, "zram"@) || starts_with(name, "dm-"@)
        || starts_with(name, "md"@))
}

pub open spec fn disks_of(names: Seq<Seq<char>>) -> Seq<Seq<char>>
    decreases names.len(),
{
    if names.len() == 0 {
        Seq::empty()
    } else if is_disk(names.last()) {
        disks_of(names.drop_last()).push(names.last())
    } else {
        disks_of(names.drop_last())
    }
}

pub open spec fn string_views(v: Seq<String>) -> Seq<Seq<char>> {
    v.map_values(|s: String| s@)
}

/// The disks among the entry names of `/sys/block`, in directory order.
pub fn block_devices(names: &Vec<String>) -> (r: Vec<String>)
    ensures
        string_views(r@) == disks_of(string_views(names@)),
{
    let mut out: Vec<String> = Vec::new();
    let n = names.len();
    for k in 0..n
        invariant
            n == names.len(),
            string_views(out@) == disks_of(string_views(names@).take(k as int)),
    {
        assert(string_views(names@).take(k + 1).drop_last() =~= string_views(names@).take(k as int));
        let v = to_chars(names[k].as_str());
        if !(starts_with_str(&v, "loop") || starts_with_str(&v, "zram") || starts_with_str(&v, "dm-")
            || starts_with_str(&v, "md")) {
            let ghost before = out@;
            out.push(names[k].clone());
            assert(string_views(out@) =~= string_views(before).push(names@[k as int]@));
        }
    }
    assert(string_views(names@).take(n as int) =~= string_views(names@));
    out
}

pub open spec fn sat_mul(a: u64, b: u64) -> u64 {
    if a * b > u64::MAX {
        u64::MAX
    } else {
        (a * b) as u64
    }
}

pub open spec fn sat_add(a: u64, b: u64) -> u64 {
    if a + b > u64::MAX {
        u64::MAX
    } else {
        (a + b) as u64
    }
}

/// What `read_one` gives for a stat file whose raw content is `raw`: sectors
/// read (third field) and written (seventh field) in bytes, saturating.
pub open spec fn disk_stat_of(raw: Seq<char>) -> Option<DiskStats> {
    let parts = tokens(trim(raw));
    if parts.len() < 7 {
        None
    } else {
        match (parse_u64(parts[2]), parse_u64(parts[6])) {
            (Some(r), Some(w)) => Some(
                DiskStats { read_bytes: sat_mul(r, SECTOR_BYTES), write_bytes: sat_mul(w, SECTOR_BYTES) },
            ),
            _ => None,
        }
    }
}

fn sectors_to_bytes(s: u64) -> (r: u64)
    ensures
        r == sat_mul(s, SECTOR_BYTES),
{
    if s > u64::MAX / SECTOR_BYTES {
        u64::MAX
    } else {
        s * SECTOR_BYTES
    }
}

/// Reads the byte counters from the raw content of `/sys/block/<dev>/stat`.
pub fn read_one(raw: &str) -> (r: Option<DiskStats>)
    ensures
        r == disk_stat_of(raw@),
{
    let v = to_chars(raw);
    let t = trim_chars(&v);
    let parts = split_ws(&t);
    if parts.len() < 7 {
        return None;
    }
    assert(views(parts@)[2] == parts@[2]@);
    assert(views(parts@)[6] == parts@[6]@);
    let r = match parse_u64_chars(&parts[2]) {
        Some(x) => x,
        None => return None,
    };
    let w = match parse_u64_chars(&parts[6]) {
        Some(x) => x,
        None => return None,
    };
    Some(DiskStats { read_bytes: sectors_to_bytes(r), write_bytes: sectors_to_bytes(w) })
}

/// The saturating totals over the stat files that could be read and parsed.
pub open spec fn totals_of(raws: Seq<Option<String>>) -> DiskStats
    decreases raws.len(),
{
    if raws.len() == 0 {
        DiskStats { read_bytes: 0, write_bytes: 0 }
    } else {
        let t = totals_of(raws.drop_last());
        match raws.last() {
            Some(s) => match disk_stat_of(s@) {
                Some(d) => DiskStats {
                    read_bytes: sat_add(t.read_bytes, d.read_bytes),
                    write_bytes: sat_add(t.write_bytes, d.write_bytes),
                },
                None => t,
            },
            None => t,
        }
    }
}

/// Sums the byte counters of all disks, given the raw contents of their stat
/// files (`None` where a file could not be read).
pub fn read_disk_totals(stats: &Vec<Option<String>>) -> (r: DiskStats)
    ensures
        r == totals_of(stats@),
{
    let mut total = DiskStats { read_bytes: 0, write_bytes: 0 };
    let n = stats.len();
    for k in 0..n
        invariant
            n == stats.len(),
            total == totals_of(stats@.take(k as int)),
    {
        assert(stats@.take(k + 1).drop_last() =~= stats@.take(k as int));
        assert(stats@.take(k + 1).last() == stats@[k as int]);
        match &stats[k] {
            Some(s) => match read_one(s.as_str()) {
                Some(d) => {
                    total = DiskStats {
                        read_bytes: total.read_bytes.saturating_add(d.read_bytes),
                        write_bytes: total.write_bytes.saturating_add(d.write_bytes),
                    };
                },
                None => {},
            },
            None => {},
        }
    }
    assert(stats@.take(n as int) =~= stats@);
    total
}

/// The counters of the previous sample, to turn cumulative counters into
/// per-interval deltas.
#[derive(Debug, Clone, Copy)]
pub struct DiskState {
    pub last: DiskStats,
    /// Whether a sample has been taken.
    pub primed: bool,
}

pub open spec fn sat_sub(a: u64, b: u64) -> u64 {
    if a >= b {
        (a - b) as u64
    } else {
        0
    }
}

/// The bytes read and written between two cumulative readings, saturating
/// at 0 when a counter went backwards.
pub open spec fn disk_delta(last: DiskStats, cur: DiskStats) -> DiskStats {
    DiskStats {
        read_bytes: sat_sub(cur.read_bytes, last.read_bytes),
        write_bytes: sat_sub(cur.write_bytes, last.write_bytes),
    }
}

/// What sampling `cur` in state `st` reports: nothing on the first sample,
/// else the delta since the previous one.
pub open spec fn sample_report(st: DiskState, cur: DiskStats) -> Option<DiskStats> {
    if st.primed {
        Some(disk_delta(st.last, cur))
    } else {
        None
    }
}

impl DiskState {
    /// No sample taken yet.
    pub fn new() -> (r: Self)
        ensures
            !r.primed,
            r.last == (DiskStats { read_bytes: 0, write_bytes: 0 }),
    {
        DiskState { last: DiskStats { read_bytes: 0, write_bytes: 0 }, primed: false }
    }

    /// Records `cur` and returns the bytes read and written since the
    /// previous sample (saturating at 0); `None` on the first sample.
    pub fn sample(&mut self, cur: DiskStats) -> (r: Option<DiskStats>)
        ensures
            *final(self) == (DiskState { last: cur, primed: true }),
            r == sample_report(*old(self), cur),
    {
        let r = if self.primed {
            Some(
                DiskStats {
                    read_bytes: cur.read_bytes.saturating_sub(self.last.read_bytes),
                    write_bytes: cur.write_bytes.saturating_sub(self.last.write_bytes),
                },
            )
        } else {
            None
        };
        self.last = cur;
        self.primed = true;
        r
    }
}

/// Sampling the same counters twice in a row reports no traffic the second
/// time: after any sample of `cur` the state is `{ last: cur, primed }`, and
/// from there a sample of `cur` reports zero bytes.
pub proof fn lemma_repeat_sample_is_zero(cur: DiskStats)
    ensures
        sample_report(DiskState { last: cur, primed: true }, cur) == Some(
            DiskStats { read_bytes: 0, write_bytes: 0 },
        ),
{
}

/// For counters that only grow, the deltas of consecutive samples add up
/// to the delta over the whole span: nothing is lost or counted twice.
pub proof fn lemma_deltas_add_up(a: DiskStats, b: DiskStats, c: DiskStats)
    requires
        a.read_bytes <= b.read_bytes <= c.read_bytes,
        a.write_bytes <= b.write_bytes <= c.write_bytes,
    ensures
        disk_delta(a, b).read_bytes + disk_delta(b, c).read_bytes == disk_delta(a, c).read_bytes,
        disk_delta(a, b).write_bytes + disk_delta(b, c).write_bytes == disk_delta(a, c).write_bytes,
{
}

/// The state after sampling `cs` in order, starting from `st`.
pub open spec fn state_after(st: DiskState, cs: Seq<DiskStats>) -> DiskState {
    if cs.len() == 0 {
        st
    } else {
        DiskState { last: cs.last(), primed: true }
    }
}

/// What sampling `cs` in order reports, starting from `st`.
pub open spec fn reports_of(st: DiskState, cs: Seq<DiskStats>) -> Seq<Option<DiskStats>>
    decreases cs.len(),
{
    if cs.len() == 0 {
        Seq::empty()
    } else {
        reports_of(st, cs.drop_last()).push(sample_report(state_after(st, cs.drop_last()), cs.last()))
    }
}

/// A run of samples on a new state: the first reports nothing, and each
/// later one reports the saturating delta from the sample before it.
pub proof fn lemma_sample_run(cs: Seq<DiskStats>)
    ensures
        reports_of(DiskState { last: DiskStats { read_bytes: 0, write_bytes: 0 }, primed: false }, cs).len()
            == cs.len(),
        cs.len() > 0 ==> reports_of(
            DiskState { last: DiskStats { read_bytes: 0, write_bytes: 0 }, primed: false },
            cs,
        )[0] is None,
        forall|j: int|
            0 < j < cs.len() ==> #[trigger] reports_of(
                DiskState { last: DiskStats { read_bytes: 0, write_bytes: 0 }, primed: false },
                cs,
            )[j] == Some(disk_delta(cs[j - 1], cs[j])),
    decreases cs.len(),
{
    let st0 = DiskState { last: DiskStats { read_bytes: 0, write_bytes: 0 }, primed: false };
    if cs.len() > 0 {
        let c2 = cs.drop_last();
        lemma_sample_run(c2);
        let rs = reports_of(st0, cs);
        assert(rs == reports_of(st0, c2).push(sample_report(state_after(st0, c2), cs.last())));
        assert forall|j: int| 0 < j < cs.len() implies #[trigger] rs[j] == Some(disk_delta(cs[j - 1], cs[j])) by {
            if j < cs.len() - 1 {
                assert(rs[j] == reports_of(st0, c2)[j]);
                assert(c2[j] == cs[j] && c2[j - 1] == cs[j - 1]);
            } else {
                assert(c2.last() == cs[j - 1]);
            }
        }
    }
}

/// A block device: its name and the raw content of its `device/model` file.
#[derive(Debug, Clone)]
pub struct BlockModel {
    pub name: String,
    pub model: Option<String>,
}

/// The trimmed model of the first device named `name`, when it is readable
/// and not empty.
pub open spec fn model_named(devs: Seq<BlockModel>, name: Seq<char>) -> Option<Seq<char>>
    decreases devs.len(),
{
    if devs.len() == 0 {
        None
    } else if devs[0].name@ == name {
        match devs[0].model {
            Some(m) => if trim(m@).len() > 0 {
                Some(trim(m@))
            } else {
                None
            },
            None => None,
        }
    } else {
        model_named(devs.drop_first(), name)
    }
}

/// The trimmed model of the first device (in list order) that has a
/// readable, non-empty one.
pub open spec fn any_model(devs: Seq<BlockModel>) -> Option<Seq<char>>
    decreases devs.len(),
{
    if devs.len() == 0 {
        None
    } else {
        match devs[0].model {
            Some(m) => if trim(m@).len() > 0 {
                Some(trim(m@))
            } else {
                any_model(devs.drop_first())
            },
            None => any_model(devs.drop_first()),
        }
    }
}

/// The SSD model: that of `nvme0n1`, `nvme1n1`, `sda` or `sdb` (the first of
/// these that has one), else that of any device, else `""`.
pub open spec fn ssd_model_of(devs: Seq<BlockModel>) -> Seq<char> {
    match model_named(devs, "nvme0n1"@) {
        Some(m) => m,
        None => match model_named(devs, "nvme1n1"@) {
            Some(m) => m,
            None => match model_named(devs, "sda"@) {
                Some(m) => m,
                None => match model_named(devs, "sdb"@) {
                    Some(m) => m,
                    None => match any_model(devs) {
                        Some(m) => m,
                        None => Seq::empty(),
                    },
                },
            },
        },
    }
}

fn model_of_name(devs: &Vec<BlockModel>, name: &str) -> (r: Option<String>)
    ensures
        match r {
            Some(m) => model_named(devs@, name@) == Some(m@),
            None => model_named(devs@, name@) is None,
        },
{
    let want = to_chars(name);
    let n = devs.len();
    let mut k: usize = 0;
    assert(devs@.skip(0) =~= devs@);
    while k < n
        invariant
            n == devs.len(),
            k <= n,
            want@ == name@,
            model_named(devs@, name@) == model_named(devs@.skip(k as int), name@),
        decreases n - k,
    {
        assert(devs@.skip(k as int)[0] == devs@[k as int]);
        assert(devs@.skip(k as int).drop_first() =~= devs@.skip(k + 1));
        let nm = to_chars(devs[k].name.as_str());
        if vec_eq(&nm, &want) {
            let m = read_string_or_empty(&devs[k].model);
            if devs[k].model.is_some() && m.len() > 0 {
                return Some(to_string(&m));
            }
            return None;
        }
        k += 1;
    }
    None
}

fn first_model(devs: &Vec<BlockModel>) -> (r: Option<String>)
    ensures
        match r {
            Some(m) => any_model(devs@) == Some(m@),
            None => any_model(devs@) is None,
        },
{
    let n = devs.len();
    let mut k: usize = 0;
    assert(devs@.skip(0) =~= devs@);
    while k < n
        invariant
            n == devs.len(),
            k <= n,
            any_model(devs@) == any_model(devs@.skip(k as int)),
        decreases n - k,
    {
        assert(devs@.skip(k as int)[0] == devs@[k as int]);
        assert(devs@.skip(k as int).drop_first() =~= devs@.skip(k + 1));
        let m = read_string_or_empty(&devs[k].model);
        if devs[k].model.is_some() && m.len() > 0 {
            return Some(to_string(&m));
        }
        k += 1;
    }
    None
}

/// Picks the SSD model among the disks (prefer the first NVMe, fall back to
/// the first SATA, then to any device).
pub fn read_ssd_model(devs: &Vec<BlockModel>) -> (r: String)
    ensures
        r@ == ssd_model_of(devs@),
{
    match model_of_name(devs, "nvme0n1") {
        Some(m) => return m,
        None => {},
    }
    match model_of_name(devs, "nvme1n1") {
        Some(m) => return m,
        None => {},
    }
    match model_of_name(devs, "sda") {
        Some(m) => return m,
        None => {},
    }
    match model_of_name(devs, "sdb") {
        Some(m) => return m,
        None => {},
    }
    match first_model(devs) {
        Some(m) => m,
        None => String::new(),
    }
}

/// The model of the first device named `name`, when it is non-empty.
proof fn lemma_model_named_first(devs: Seq<BlockModel>, name: Seq<char>, i: int)
    requires
        0 <= i < devs.len(),
        devs[i].name@ == name,
        forall|j: int| 0 <= j < i ==> (#[trigger] devs[j]).name@ != name,
    ensures
        model_named(devs, name) == match devs[i].model {
            Some(m) => if trim(m@).len() > 0 {
                Some(trim(m@))
            } else {
                None
            },
            None => None,
        },
    decreases i,
{
    if i > 0 {
        assert(devs[0].name@ != name);
        lemma_model_named_first(devs.drop_first(), name, i - 1);
        assert forall|j: int| 0 <= j < i - 1 implies (#[trigger] devs.drop_first()[j]).name@ != name by {
            assert(devs.drop_first()[j] == devs[j + 1]);
        }
    }
}

/// No model for `name` when no device of that name has a non-empty one.
proof fn lemma_model_named_none(devs: Seq<BlockModel>, name: Seq<char>)
    requires
        forall|j: int| 0 <= j < devs.len() && (#[trigger] devs[j]).name@ == name ==> match devs[j].model {
            Some(m) => trim(m@).len() == 0,
            None => true,
        },
    ensures
        model_named(devs, name) is None,
    decreases devs.len(),
{
    if devs.len() > 0 {
        assert(devs[0] == devs[0]);
        assert forall|j: int| 0 <= j < devs.drop_first().len() && (#[trigger] devs.drop_first()[j]).name@ == name implies match devs.drop_first()[j].model {
            Some(m) => trim(m@).len() == 0,
            None => true,
        } by {
            assert(devs.drop_first()[j] == devs[j + 1]);
        }
        lemma_model_named_none(devs.drop_first(), name);
    }
}

/// The first SATA disk wins over the second: when no `nvme0n1` or `nvme1n1`
/// has a non-empty model and the first device named `sda` has one, the SSD
/// model is `sda`'s (trimmed), whatever `sdb` holds.
pub proof fn lemma_sda_before_sdb(devs: Seq<BlockModel>, i: int, m: String)
    requires
        0 <= i < devs.len(),
        devs[i].name@ == "sda"@,
        forall|j: int| 0 <= j < i ==> (#[trigger] devs[j]).name@ != "sda"@,
        devs[i].model == Some(m),
        trim(m@).len() > 0,
        forall|j: int|
            0 <= j < devs.len() && ((#[trigger] devs[j]).name@ == "nvme0n1"@ || devs[j].name@ == "nvme1n1"@)
                ==> match devs[j].model {
                Some(x) => trim(x@).len() == 0,
                None => true,
            },
    ensures
        ssd_model_of(devs) == trim(m@),
{
    lemma_model_named_none(devs, "nvme0n1"@);
    lemma_model_named_none(devs, "nvme1n1"@);
    lemma_model_named_first(devs, "sda"@, i);
}

/// Whether a device has a readable, non-empty model.
pub open spec fn has_model(d: BlockModel) -> bool {
    match d.model {
        Some(m) => trim(m@).len() > 0,
        None => false,
    }
}

/// The trimmed model of a device that has one.
pub open spec fn model_text(d: BlockModel) -> Seq<char> {
    match d.model {
        Some(m) => trim(m@),
        None => Seq::empty(),
    }
}

/// No device named `name` has a non-empty model.
pub open spec fn no_model(devs: Seq<BlockModel>, name: Seq<char>) -> bool {
    forall|j: int| 0 <= j < devs.len() && (#[trigger] devs[j]).name@ == name ==> !has_model(devs[j])
}

/// Device `i` is the first one named `name`, and it has a non-empty model.
pub open spec fn first_with_model(devs: Seq<BlockModel>, name: Seq<char>, i: int) -> bool {
    &&& 0 <= i < devs.len()
    &&& devs[i].name@ == name
    &&& forall|j: int| 0 <= j < i ==> (#[trigger] devs[j]).name@ != name
    &&& has_model(devs[i])
}

proof fn lemma_any_model_first(devs: Seq<BlockModel>, i: int)
    requires
        0 <= i < devs.len(),
        has_model(devs[i]),
        forall|j: int| 0 <= j < i ==> !has_model(#[trigger] devs[j]),
    ensures
        any_model(devs) == Some(model_text(devs[i])),
    decreases i,
{
    if i > 0 {
        assert(!has_model(devs[0]));
        assert forall|j: int| 0 <= j < i - 1 implies !has_model(#[trigger] devs.drop_first()[j]) by {
            assert(devs.drop_first()[j] == devs[j + 1]);
        }
        lemma_any_model_first(devs.drop_first(), i - 1);
    }
}

proof fn lemma_any_model_none(devs: Seq<BlockModel>)
    requires
        forall|j: int| 0 <= j < devs.len() ==> !has_model(#[trigger] devs[j]),
    ensures
        any_model(devs) is None,
    decreases devs.len(),
{
    if devs.len() > 0 {
        assert(!has_model(devs[0]));
        assert forall|j: int| 0 <= j < devs.drop_first().len() implies !has_model(#[trigger] devs.drop_first()[j]) by {
            assert(devs.drop_first()[j] == devs[j + 1]);
        }
        lemma_any_model_none(devs.drop_first());
    }
}

/// The SSD model follows the preference `nvme0n1`, `nvme1n1`, `sda`,
/// `sdb`: the first of these names whose first device has a non-empty model
/// gives it (trimmed), whatever the later names hold; when none does, the
/// first device in the list with a non-empty model gives it; else it is
/// empty.
pub proof fn lemma_ssd_preference(devs: Seq<BlockModel>, i: int)
    ensures
        first_with_model(devs, "nvme0n1"@, i) ==> ssd_model_of(devs) == model_text(devs[i]),
        no_model(devs, "nvme0n1"@) && first_with_model(devs, "nvme1n1"@, i) ==> ssd_model_of(devs)
            == model_text(devs[i]),
        no_model(devs, "nvme0n1"@) && no_model(devs, "nvme1n1"@) && first_with_model(devs, "sda"@, i)
            ==> ssd_model_of(devs) == model_text(devs[i]),
        no_model(devs, "nvme0n1"@) && no_model(devs, "nvme1n1"@) && no_model(devs, "sda"@)
            && first_with_model(devs, "sdb"@, i) ==> ssd_model_of(devs) == model_text(devs[i]),
        ({
            &&& no_model(devs, "nvme0n1"@)
            &&& no_model(devs, "nvme1n1"@)
            &&& no_model(devs, "sda"@)
            &&& no_model(devs, "sdb"@)
            &&& 0 <= i < devs.len()
            &&& has_model(devs[i])
            &&& forall|j: int| 0 <= j < i ==> !has_model(#[trigger] devs[j])
        }) ==> ssd_model_of(devs) == model_text(devs[i]),
        (forall|j: int| 0 <= j < devs.len() ==> !has_model(#[trigger] devs[j])) ==> ssd_model_of(devs)
            == Seq::<char>::empty(),
{
    if 0 <= i < devs.len() {
        if devs[i].name@ == "nvme0n1"@ && first_with_model(devs, "nvme0n1"@, i) {
            lemma_model_named_first(devs, "nvme0n1"@, i);
        }
        if devs[i].name@ == "nvme1n1"@ && first_with_model(devs, "nvme1n1"@, i) {
            lemma_model_named_first(devs, "nvme1n1"@, i);
        }
        if devs[i].name@ == "sda"@ && first_with_model(devs, "sda"@, i) {
            lemma_model_named_first(devs, "sda"@, i);
        }
        if devs[i].name@ == "sdb"@ && first_with_model(devs, "sdb"@, i) {
            lemma_model_named_first(devs, "sdb"@, i);
        }
        if has_model(devs[i]) && forall|j: int| 0 <= j < i ==> !has_model(#[trigger] devs[j]) {
            lemma_any_model_first(devs, i);
        }
    }
    if no_model(devs, "nvme0n1"@) {
        lemma_model_named_none(devs, "nvme0n1"@);
    }
    if no_model(devs, "nvme1n1"@) {
        lemma_model_named_none(devs, "nvme1n1"@);
    }
    if no_model(devs, "sda"@) {
        lemma_model_named_none(devs, "sda"@);
    }
    if no_model(devs, "sdb"@) {
        lemma_model_named_none(devs, "sdb"@);
    }
    if forall|j: int| 0 <= j < devs.len() ==> !has_model(#[trigger] devs[j]) {
        lemma_any_model_none(devs);
        lemma_model_named_none(devs, "nvme0n1"@);
        lemma_model_named_none(devs, "nvme1n1"@);
        lemma_model_named_none(devs, "sda"@);
        lemma_model_named_none(devs, "sdb"@);
    }
}

} // verus!
