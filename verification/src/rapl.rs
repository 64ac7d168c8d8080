//! Intel RAPL domains under `/sys/class/powercap` and energy-counter deltas
//! with wrap handling.
use vstd::prelude::*;
use crate::sysfs::{content_or_empty, opt_string_view, opt_view, parse_attr, parsed, read_parse, read_string_or_empty};
use crate::text::{
    ascii_lower, eq_str, lower_char, lowercase, starts_with, starts_with_str, to_chars,
};

verus! {

/// The kind of a RAPL domain — package, cores (PP0), uncore (PP1/GPU),
/// DRAM, or PSYS.
#[derive(Debug, Clone, Copy, PartialEq, Eq, Structural)]
pub enum DomainKind {
    Package,
    Cores,
    GpuUncore,
    Dram,
    Psys,
    Other,
}

/// The kind that a domain's `name` file denotes, compared case-insensitively.
pub open spec fn kind_of(name: Seq<char>) -> DomainKind {
    let n = ascii_lower(name);
    if starts_with(n, "package"@) {
        DomainKind::Package
    } else if n == "core"@ || n == "pp0"@ {
        DomainKind::Cores
    } else if n == "uncore"@ || n == "pp1"@ {
        DomainKind::GpuUncore
    } else if n == "dram"@ {
        DomainKind::Dram
    } else if n == "psys"@ {
        DomainKind::Psys
    } else {
        DomainKind::Other
    }
}

impl DomainKind {
    /// The kind that a RAPL domain name denotes.
    pub fn classify(name: &str) -> (r: Self)
        ensures
            r == kind_of(name@),
    {
        let v = to_chars(name);
        let n = lowercase(&v);
        if starts_with_str(&n, "package") {
            DomainKind::Package
        } else if eq_str(&n, "core") || eq_str(&n, "pp0") {
            DomainKind::Cores
        } else if eq_str(&n, "uncore") || eq_str(&n, "pp1") {
            DomainKind::GpuUncore
        } else if eq_str(&n, "dram") {
            DomainKind::Dram
        } else if eq_str(&n, "psys") {
            DomainKind::Psys
        } else {
            DomainKind::Other
        }
    }
}

/// Lowering ASCII capitals twice changes nothing more than lowering once.
pub proof fn lemma_ascii_lower_idempotent(s: Seq<char>)
    ensures
        ascii_lower(ascii_lower(s)) == ascii_lower(s),
{
    assert forall|i: int| 0 <= i < s.len() implies #[trigger] lower_char(lower_char(s[i])) == lower_char(
        s[i],
    ) by {
        let c = s[i];
        if 'A' <= c && c <= 'Z' {
            assert(('a' as u32) <= (lower_char(c) as u32) <= ('z' as u32));
        }
    }
    assert(ascii_lower(ascii_lower(s)) =~= ascii_lower(s));
}

/// Classification ignores ASCII case: a name and its lowercase form denote
/// the same domain kind.
pub proof fn lemma_classify_ignores_case(name: Seq<char>)
    ensures
        kind_of(ascii_lower(name)) == kind_of(name),
{
    lemma_ascii_lower_idempotent(name);
}

/// One RAPL domain: its directory, kind and counter range.
#[derive(Debug, Clone)]
pub struct Domain {
    pub path: String,
    pub kind: DomainKind,
    pub max_energy_uj: u64,
}

/// A powercap zone directory: its entry name, path and the raw contents of
/// its `name` and `max_energy_range_uj` files.
#[derive(Debug, Clone)]
pub struct PowercapZone {
    pub dir_name: String,
    pub path: String,
    pub name_raw: Option<String>,
    pub max_raw: Option<String>,
}

/// A top-level powercap zone and the zones inside it.
#[derive(Debug, Clone)]
pub struct PowercapPackage {
    pub zone: PowercapZone,
    pub subzones: Vec<PowercapZone>,
}

/// The domain that a zone describes.
pub open spec fn domain_of(z: PowercapZone) -> (Seq<char>, DomainKind, u64) {
    (
        z.path@,
        kind_of(content_or_empty(opt_string_view(z.name_raw))),
        match parsed::<u64>(opt_string_view(z.max_raw)) {
            Some(m) => m,
            None => 0,
        },
    )
}

pub open spec fn is_rapl(z: PowercapZone) -> bool {
    starts_with(z.dir_name@, "intel-rapl:"@)
}

/// The RAPL subdomains of a package, in order.
pub open spec fn sub_domains(zs: Seq<PowercapZone>) -> Seq<(Seq<char>, DomainKind, u64)>
    decreases zs.len(),
{
    if zs.len() == 0 {
        Seq::empty()
    } else if is_rapl(zs.last()) {
        sub_domains(zs.drop_last()).push(domain_of(zs.last()))
    } else {
        sub_domains(zs.drop_last())
    }
}

/// The RAPL domains of the given packages: each `intel-rapl:*` package,
/// followed by its `intel-rapl:*` subdomains; other entries are skipped.
pub open spec fn domains_of(ps: Seq<PowercapPackage>) -> Seq<(Seq<char>, DomainKind, u64)>
    decreases ps.len(),
{
    if ps.len() == 0 {
        Seq::empty()
    } else if is_rapl(ps.last().zone) {
        domains_of(ps.drop_last()).push(domain_of(ps.last().zone)) + sub_domains(
            ps.last().subzones@,
        )
    } else {
        domains_of(ps.drop_last())
    }
}

pub open spec fn domain_views(ds: Seq<Domain>) -> Seq<(Seq<char>, DomainKind, u64)> {
    ds.map_values(|d: Domain| (d.path@, d.kind, d.max_energy_uj))
}

fn push_domain(z: &PowercapZone, out: &mut Vec<Domain>)
    ensures
        domain_views(final(out)@) == domain_views(old(out)@).push(domain_of(*z)),
{
    let dn = read_string_or_empty(&z.name_raw);
    let dns = crate::text::to_string(&dn);
    let max: u64 = match parse_attr::<u64>(&z.max_raw) {
        Some(m) => m,
        None => 0,
    };
    let ghost before = out@;
    out.push(Domain { path: z.path.clone(), kind: DomainKind::classify(dns.as_str()), max_energy_uj: max });
    assert(domain_views(out@) =~= domain_views(before).push(domain_of(*z)));
}

/// Enumerates the visible RAPL domains among the `/sys/class/powercap`
/// entries, leaving out `intel-rapl-mmio:*` and other non-`intel-rapl:` zones.
pub fn enumerate(entries: &Vec<PowercapPackage>) -> (r: Vec<Domain>)
    ensures
        domain_views(r@) == domains_of(entries@),
{
    let mut out: Vec<Domain> = Vec::new();
    let n = entries.len();
    for k in 0..n
        invariant
            n == entries.len(),
            domain_views(out@) == domains_of(entries@.take(k as int)),
    {
        assert(entries@.take(k + 1).drop_last() =~= entries@.take(k as int));
        assert(entries@.take(k + 1).last() == entries@[k as int]);
        let e = &entries[k];
        let dir = to_chars(e.zone.dir_name.as_str());
        if starts_with_str(&dir, "intel-rapl:") {
            push_domain(&e.zone, &mut out);
            let ghost base = domain_views(out@);
            let m = e.subzones.len();
            for j in 0..m
                invariant
                    m == e.subzones.len(),
                    domain_views(out@) == base + sub_domains(e.subzones@.take(j as int)),
            {
                assert(e.subzones@.take(j + 1).drop_last() =~= e.subzones@.take(j as int));
                assert(e.subzones@.take(j + 1).last() == e.subzones@[j as int]);
                let sname = to_chars(e.subzones[j].dir_name.as_str());
                if starts_with_str(&sname, "intel-rapl:") {
                    push_domain(&e.subzones[j], &mut out);
                }
            }
            assert(e.subzones@.take(m as int) =~= e.subzones@);
        }
    }
    assert(entries@.take(n as int) =~= entries@);
    out
}

/// The energy counter of a domain (µJ) from the raw content of its
/// `energy_uj` file.
pub fn read_energy(raw: Option<&str>) -> (r: Option<u64>)
    ensures
        r == parsed::<u64>(opt_view(raw)),
{
    read_parse::<u64>(raw)
}

/// Energy (µJ) used between two counter readings; a counter that went down
/// wrapped at `max` (when known), otherwise nothing is counted.
pub open spec fn energy_delta(prev: u64, cur: u64, max: u64) -> u64 {
    if cur >= prev {
        (cur - prev) as u64
    } else if max > 0 {
        if (max - prev) + cur > u64::MAX {
            u64::MAX
        } else {
            ((max - prev) + cur) as u64
        }
    } else {
        0
    }
}

/// Energy used between two readings of a counter that wraps at `max`.
pub fn energy_delta_uj(prev: u64, cur: u64, max: u64) -> (r: u64)
    requires
        cur >= prev || max == 0 || prev <= max,
    ensures
        r == energy_delta(prev, cur, max),
{
    if cur >= prev {
        cur - prev
    } else if max > 0 {
        (max - prev).saturating_add(cur)
    } else {
        0
    }
}

/// Wrap handling is exact: when a counter that wraps at `max` advances by
/// `d < max` from `prev < max`, the delta is `d`, whether or not it wrapped.
pub proof fn lemma_wrap_delta(prev: u64, d: u64, max: u64)
    requires
        prev < max,
        d < max,
    ensures
        energy_delta(prev, ((prev + d) % (max as int)) as u64, max) == d,
{
    if prev + d < max {
        assert((prev + d) % (max as int) == prev + d) by (nonlinear_arith)
            requires
                0 <= prev + d < max,
        ;
    } else {
        assert((prev + d) % (max as int) == prev + d - max) by (nonlinear_arith)
            requires
                max <= prev + d < 2 * max,
        ;
    }
}

/// A counter reading and when it was taken, in nanoseconds on a monotonic
/// clock of the caller's choosing (`None`: no reading yet).
#[derive(Debug, Clone, Copy, Default, PartialEq, Eq)]
pub struct Sample {
    pub energy_uj: u64,
    pub at: Option<u64>,
}

/// The energy used and the time elapsed between two readings.
#[derive(Debug, Clone, Copy, PartialEq, Eq)]
pub struct Interval {
    pub energy_uj: u64,
    pub elapsed_ns: u64,
}

/// What a reading of `cur_uj` at `now` measures against the previous
/// sample: nothing when there is no previous reading or no time has
/// passed, else the (wrap-aware) energy and the elapsed time.
pub open spec fn interval_of(prev: Sample, cur_uj: u64, now: u64, max: u64) -> Option<Interval> {
    match prev.at {
        Some(t) => if now > t {
            Some(Interval { energy_uj: energy_delta(prev.energy_uj, cur_uj, max), elapsed_ns: (now - t) as u64 })
        } else {
            None
        },
        None => None,
    }
}

/// Whether measuring `cur_uj` at `now` against `prev` reaches the wrap
/// arithmetic with a previous reading above the counter's range.
pub open spec fn wraps_out_of_range(prev: Sample, cur_uj: u64, now: u64, max: u64) -> bool {
    &&& prev.at matches Some(t) && now > t
    &&& cur_uj < prev.energy_uj
    &&& max > 0
    &&& prev.energy_uj > max
}

/// The energy and time between a previous sample and a new reading.
pub fn interval_between(prev: Sample, cur_uj: u64, now: u64, max: u64) -> (r: Option<Interval>)
    requires
        !wraps_out_of_range(prev, cur_uj, now, max),
    ensures
        r == interval_of(prev, cur_uj, now, max),
{
    match prev.at {
        Some(t) => if now > t {
            Some(Interval { energy_uj: energy_delta_uj(prev.energy_uj, cur_uj, max), elapsed_ns: now - t })
        } else {
            None
        },
        None => None,
    }
}

/// Per-domain power bookkeeping: the last reading.
#[derive(Debug, Default)]
pub struct DomainState {
    pub last: Sample,
}

impl DomainState {
    /// One tick with the domain's counter reading (`None` when it could not
    /// be read: nothing changes) taken at `now`: returns what was measured
    /// since the previous reading and records this one.
    pub fn tick(&mut self, reading: Option<u64>, now: u64, max: u64) -> (r: Option<Interval>)
        requires
            reading matches Some(c) ==> !wraps_out_of_range(old(self).last, c, now, max),
        ensures
            match reading {
                None => r is None && final(self).last == old(self).last,
                Some(c) => {
                    &&& r == interval_of(old(self).last, c, now, max)
                    &&& final(self).last == (Sample { energy_uj: c, at: Some(now) })
                },
            },
    {
        match reading {
            None => None,
            Some(c) => {
                let r = interval_between(self.last, c, now, max);
                self.last = Sample { energy_uj: c, at: Some(now) };
                r
            },
        }
    }
}

} // verus!
