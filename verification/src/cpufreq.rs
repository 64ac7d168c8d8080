//! CPU topology (hybrid P/E split), `/proc/stat` tick counters and cpufreq.
use vstd::prelude::*;
use std::collections::HashMap;
use crate::sysfs::{opt_view, parsed, read_parse};
use crate::text::{
    eq_str, lemma_pieces_join, has_prefix, lines, parse_u32, parse_u32_chars, parse_u64, parse_u64_chars, pieces,
    split_char, split_lines, split_once, split_once_char, split_ws, starts_with, strip_prefix_str,
    to_chars, to_string, tokens, trim, trim_chars, views,
};

verus! {

broadcast use vstd::std_specs::hash::group_hash_axioms;

/// CPU topology — discovered once at startup.
#[derive(Debug, Clone)]
pub struct CpuTopology {
    /// All logical CPUs in kernel order.
    pub all: Vec<u32>,
    /// P-core logical CPU ids (empty on non-hybrid CPUs).
    pub pcpus: Vec<u32>,
    /// E-core logical CPU ids (empty on non-hybrid CPUs).
    pub ecpus: Vec<u32>,
}

/// `0..=hi` shifted to start at `lo`: the CPUs a range `lo-hi` names.
pub open spec fn cpu_range(lo: u32, hi: u32) -> Seq<u32> {
    if lo <= hi {
        Seq::new((hi - lo + 1) as nat, |i: int| (lo + i) as u32)
    } else {
        Seq::empty()
    }
}

/// The CPUs that one comma-separated part of a CPU list names.
pub open spec fn cpu_list_part(p: Seq<char>) -> Seq<u32> {
    let t = trim(p);
    if t.len() == 0 {
        Seq::empty()
    } else {
        match split_once(t, '-') {
            Some((lo, hi)) => match (parse_u32(lo), parse_u32(hi)) {
                (Some(a), Some(b)) => cpu_range(a, b),
                _ => Seq::empty(),
            },
            None => match parse_u32(t) {
                Some(v) => seq![v],
                None => Seq::empty(),
            },
        }
    }
}

/// The CPUs that a sequence of list parts names, in order.
pub open spec fn cpu_list_parts(ps: Seq<Seq<char>>) -> Seq<u32>
    decreases ps.len(),
{
    if ps.len() == 0 {
        Seq::empty()
    } else {
        cpu_list_parts(ps.drop_last()) + cpu_list_part(ps.last())
    }
}

/// What `parse_cpu_list` returns for a CPU list spec such as `0-3,8,10-11`.
pub open spec fn cpu_list(s: Seq<char>) -> Seq<u32> {
    cpu_list_parts(pieces(s, ','))
}

proof fn lemma_parts_concat(x: Seq<Seq<char>>, y: Seq<Seq<char>>)
    ensures
        cpu_list_parts(x + y) == cpu_list_parts(x) + cpu_list_parts(y),
    decreases y.len(),
{
    if y.len() == 0 {
        assert(x + y =~= x);
        assert(cpu_list_parts(x) + cpu_list_parts(y) =~= cpu_list_parts(x));
    } else {
        lemma_parts_concat(x, y.drop_last());
        assert((x + y).drop_last() =~= x + y.drop_last());
        assert((x + y).last() == y.last());
        assert(cpu_list_parts(x + y) =~= cpu_list_parts(x) + cpu_list_parts(y));
    }
}

/// The parts of a CPU list are read independently: the list `a,b` names
/// the CPUs of `a` followed by those of `b`.
pub proof fn lemma_cpu_list_concat(a: Seq<char>, b: Seq<char>)
    ensures
        cpu_list(a + seq![','] + b) == cpu_list(a) + cpu_list(b),
{
    lemma_pieces_join(a, b, ',');
    lemma_parts_concat(pieces(a, ','), pieces(b, ','));
}

fn push_range(out: &mut Vec<u32>, lo: u32, hi: u32)
    ensures
        final(out)@ == old(out)@ + cpu_range(lo, hi),
{
    let ghost start = out@;
    if lo > hi {
        assert(cpu_range(lo, hi) =~= Seq::<u32>::empty());
        return;
    }
    let mut v: u64 = lo as u64;
    while v <= hi as u64
        invariant
            lo <= hi,
            lo <= v <= hi as u64 + 1,
            out@ == start + cpu_range(lo, hi).take(v - lo),
        decreases hi as u64 + 1 - v,
    {
        out.push(v as u32);
        assert(cpu_range(lo, hi).take(v - lo + 1) =~= cpu_range(lo, hi).take(v - lo).push(
            v as u32,
        ));
        v += 1;
    }
    assert(cpu_range(lo, hi).take(v - lo) =~= cpu_range(lo, hi));
}

/// Parses a Linux CPU list spec like "0-3,8,10-11" into a Vec.
pub fn parse_cpu_list(s: &str) -> (r: Vec<u32>)
    ensures
        r@ == cpu_list(s@),
{
    let chars = to_chars(s);
    let parts = split_char(&chars, ',');
    let mut out: Vec<u32> = Vec::new();
    let n = parts.len();
    for k in 0..n
        invariant
            n == parts.len(),
            views(parts@) == pieces(s@, ','),
            out@ == cpu_list_parts(views(parts@).take(k as int)),
    {
        let ghost ps = views(parts@);
        assert(ps.take(k + 1).drop_last() =~= ps.take(k as int));
        assert(ps[k as int] == parts@[k as int]@);
        let part = trim_chars(&parts[k]);
        if part.len() == 0 {
            assert(cpu_list_part(ps[k as int]) =~= Seq::<u32>::empty());
            assert(out@ + cpu_list_part(ps[k as int]) =~= out@);
        } else {
            match split_once_char(&part, '-') {
                Some((lo, hi)) => {
                    match (parse_u32_chars(&lo), parse_u32_chars(&hi)) {
                        (Some(a), Some(b)) => {
                            push_range(&mut out, a, b);
                        },
                        _ => {
                            assert(out@ + cpu_list_part(ps[k as int]) =~= out@);
                        },
                    }
                },
                None => {
                    match parse_u32_chars(&part) {
                        Some(v) => {
                            out.push(v);
                        },
                        None => {
                            assert(out@ + cpu_list_part(ps[k as int]) =~= out@);
                        },
                    }
                },
            }
        }
    }
    assert(views(parts@).take(n as int) =~= views(parts@));
    out
}

/// What `read_cpu_list` gives for a list file whose raw content is `raw`.
pub open spec fn cpu_list_file(raw: Option<Seq<char>>) -> Option<Seq<u32>> {
    match raw {
        Some(s) => Some(cpu_list(trim(s))),
        None => None,
    }
}

/// The CPUs that a CPU list file names; `None` when it could not be read.
pub fn read_cpu_list(raw: Option<&str>) -> (r: Option<Vec<u32>>)
    ensures
        match r {
            Some(v) => cpu_list_file(opt_view(raw)) == Some(v@),
            None => raw is None,
        },
{
    match raw {
        Some(s) => {
            let v = to_chars(s);
            let t = trim_chars(&v);
            let ts = to_string(&t);
            Some(parse_cpu_list(ts.as_str()))
        },
        None => None,
    }
}

impl CpuTopology {
    /// The topology given the raw contents of
    /// `/sys/devices/system/cpu/online`, `/sys/devices/cpu_core/cpus` and
    /// `/sys/devices/cpu_atom/cpus` (`None` where a file could not be read).
    pub fn detect(online: Option<&str>, core_cpus: Option<&str>, atom_cpus: Option<&str>) -> (r:
        Self)
        ensures
            r.all@ == cpu_list_file(opt_view(online)).unwrap_or(Seq::empty()),
            r.pcpus@ == cpu_list_file(opt_view(core_cpus)).unwrap_or(Seq::empty()),
            r.ecpus@ == cpu_list_file(opt_view(atom_cpus)).unwrap_or(Seq::empty()),
    {
        let all = match read_cpu_list(online) {
            Some(v) => v,
            None => Vec::new(),
        };
        let pcpus = match read_cpu_list(core_cpus) {
            Some(v) => v,
            None => Vec::new(),
        };
        let ecpus = match read_cpu_list(atom_cpus) {
            Some(v) => v,
            None => Vec::new(),
        };
        CpuTopology { all, pcpus, ecpus }
    }

    pub open spec fn spec_is_hybrid(&self) -> bool {
        self.pcpus@.len() > 0 && self.ecpus@.len() > 0
    }

    /// Whether the CPU has both P-cores and E-cores.
    pub fn is_hybrid(&self) -> (r: bool)
        ensures
            r == self.spec_is_hybrid(),
    {
        self.pcpus.len() > 0 && self.ecpus.len() > 0
    }
}

/// Per-CPU tick counters from /proc/stat.
#[derive(Debug, Clone, Copy, PartialEq, Eq)]
pub struct CpuTicks {
    pub user: u64,
    pub nice: u64,
    pub system: u64,
    pub idle: u64,
    pub iowait: u64,
    pub irq: u64,
    pub softirq: u64,
    pub steal: u64,
}

pub open spec fn sat(x: int) -> u64 {
    if x > u64::MAX {
        u64::MAX
    } else {
        x as u64
    }
}

pub open spec fn zero_ticks() -> CpuTicks {
    CpuTicks { user: 0, nice: 0, system: 0, idle: 0, iowait: 0, irq: 0, softirq: 0, steal: 0 }
}

impl CpuTicks {
    pub open spec fn spec_total(&self) -> u64 {
        sat(
            self.user + self.nice + self.system + self.idle + self.iowait + self.irq + self.softirq
                + self.steal,
        )
    }

    pub open spec fn spec_idle_all(&self) -> u64 {
        sat(self.idle + self.iowait)
    }

    /// All counters at zero.
    pub fn zero() -> (r: Self)
        ensures
            r == zero_ticks(),
    {
        CpuTicks { user: 0, nice: 0, system: 0, idle: 0, iowait: 0, irq: 0, softirq: 0, steal: 0 }
    }

    /// The sum of all counters, saturating at `u64::MAX`.
    pub fn total(&self) -> (r: u64)
        ensures
            r == self.spec_total(),
    {
        self.user.saturating_add(self.nice).saturating_add(self.system).saturating_add(
            self.idle,
        ).saturating_add(self.iowait).saturating_add(self.irq).saturating_add(
            self.softirq,
        ).saturating_add(self.steal)
    }

    /// Idle plus iowait ticks, saturating at `u64::MAX`.
    pub fn idle_all(&self) -> (r: u64)
        ensures
            r == self.spec_idle_all(),
    {
        self.idle.saturating_add(self.iowait)
    }
}

impl Default for CpuTicks {
    fn default() -> (r: Self)
        ensures
            r == zero_ticks(),
    {
        CpuTicks::zero()
    }
}

/// Idle time never exceeds total time: `idle_all() <= total()` for every
/// tick record, saturation included.
pub proof fn lemma_idle_within_total(t: CpuTicks)
    ensures
        t.spec_idle_all() <= t.spec_total(),
{
}

/// The `k`-th counter of a `/proc/stat` line: the `k`-th number after the
/// label, `0` when it is missing or does not parse.
pub open spec fn tick_field(rest: Seq<Seq<char>>, k: int) -> u64 {
    if k < rest.len() {
        match parse_u64(rest[k]) {
            Some(v) => v,
            None => 0,
        }
    } else {
        0
    }
}

pub open spec fn ticks_of(rest: Seq<Seq<char>>) -> CpuTicks {
    CpuTicks {
        user: tick_field(rest, 0),
        nice: tick_field(rest, 1),
        system: tick_field(rest, 2),
        idle: tick_field(rest, 3),
        iowait: tick_field(rest, 4),
        irq: tick_field(rest, 5),
        softirq: tick_field(rest, 6),
        steal: tick_field(rest, 7),
    }
}

/// What one line of `/proc/stat` contributes.
pub enum StatLine {
    Skip,
    Overall(CpuTicks),
    PerCpu(u32, CpuTicks),
    /// A `cpu…` line with no words; the reader gives up.
    Malformed,
}

pub open spec fn stat_line(l: Seq<char>) -> StatLine {
    if !starts_with(l, "cpu"@) {
        StatLine::Skip
    } else {
        let toks = tokens(l);
        if toks.len() == 0 {
            StatLine::Malformed
        } else {
            let head = toks[0];
            let rest = toks.drop_first();
            if head == "cpu"@ {
                StatLine::Overall(ticks_of(rest))
            } else if starts_with(head, "cpu"@) {
                match parse_u32(head.skip("cpu"@.len() as int)) {
                    Some(i) => StatLine::PerCpu(i, ticks_of(rest)),
                    None => StatLine::Skip,
                }
            } else {
                StatLine::Skip
            }
        }
    }
}

/// The overall and per-CPU counters that a sequence of `/proc/stat` lines
/// holds; a later line for the same CPU replaces an earlier one.
pub open spec fn proc_stat_of(ls: Seq<Seq<char>>) -> Option<(CpuTicks, Map<u32, CpuTicks>)>
    decreases ls.len(),
{
    if ls.len() == 0 {
        Some((zero_ticks(), Map::empty()))
    } else {
        match proc_stat_of(ls.drop_last()) {
            Some((o, m)) => match stat_line(ls.last()) {
                StatLine::Skip => Some((o, m)),
                StatLine::Overall(t) => Some((t, m)),
                StatLine::PerCpu(i, t) => Some((o, m.insert(i, t))),
                StatLine::Malformed => None,
            },
            None => None,
        }
    }
}

fn ticks_from(toks: &Vec<Vec<char>>) -> (r: CpuTicks)
    requires
        toks@.len() >= 1,
    ensures
        r == ticks_of(views(toks@).drop_first()),
{
    let ghost rest = views(toks@).drop_first();
    assert(views(toks@).len() == toks@.len());
    let mut v: [u64; 8] = [0u64; 8];
    let mut k: usize = 0;
    while k < 8
        invariant
            k <= 8,
            toks@.len() >= 1,
            rest == views(toks@).drop_first(),
            rest.len() == toks@.len() - 1,
            forall|j: int| 0 <= j < k ==> v@[j] == tick_field(rest, j),
        decreases 8 - k,
    {
        if k + 1 < toks.len() {
            assert(rest[k as int] == toks@[k + 1]@);
            v[k] = match parse_u64_chars(&toks[k + 1]) {
                Some(x) => x,
                None => 0,
            };
        } else {
            v[k] = 0;
        }
        k += 1;
    }
    CpuTicks {
        user: v[0],
        nice: v[1],
        system: v[2],
        idle: v[3],
        iowait: v[4],
        irq: v[5],
        softirq: v[6],
        steal: v[7],
    }
}

/// Reads the text of `/proc/stat` into (overall, per-cpu) tick counters
/// keyed by cpu id.
pub fn read_proc_stat(text: &str) -> (r: Option<(CpuTicks, HashMap<u32, CpuTicks>)>)
    ensures
        match r {
            Some((o, m)) => proc_stat_of(lines(text@)) == Some((o, m@)),
            None => proc_stat_of(lines(text@)) is None,
        },
{
    let chars = to_chars(text);
    let ls = split_lines(&chars);
    let mut overall = CpuTicks::zero();
    let mut per: HashMap<u32, CpuTicks> = HashMap::new();
    let n = ls.len();
    for k in 0..n
        invariant
            n == ls.len(),
            views(ls@) == lines(text@),
            proc_stat_of(views(ls@).take(k as int)) == Some((overall, per@)),
    {
        let ghost pre = views(ls@).take(k as int);
        assert(views(ls@).take(k + 1).drop_last() =~= pre);
        assert(views(ls@)[k as int] == ls@[k as int]@);
        let line = &ls[k];
        if has_prefix(line, &to_chars("cpu")) {
            let toks = split_ws(line);
            if toks.len() == 0 {
                assert(proc_stat_of(views(ls@).take(k + 1)) is None);
                assert forall|j: int| k + 1 <= j <= n implies proc_stat_of(views(ls@).take(j)) is None by {
                    lemma_proc_stat_none_extends(views(ls@), k + 1, j);
                }
                assert(views(ls@).take(n as int) =~= views(ls@));
                return None;
            }
            assert(views(toks@)[0] == toks@[0]@);
            let head = &toks[0];
            if eq_str(head, "cpu") {
                overall = ticks_from(&toks);
            } else {
                match strip_prefix_str(head, "cpu") {
                    Some(idx) => {
                        match parse_u32_chars(&idx) {
                            Some(i) => {
                                let t = ticks_from(&toks);
                                per.insert(i, t);
                            },
                            None => {},
                        }
                    },
                    None => {},
                }
            }
        }
    }
    assert(views(ls@).take(n as int) =~= views(ls@));
    Some((overall, per))
}

proof fn lemma_proc_stat_none_extends(ls: Seq<Seq<char>>, i: int, j: int)
    requires
        0 <= i <= j <= ls.len(),
        proc_stat_of(ls.take(i)) is None,
    ensures
        proc_stat_of(ls.take(j)) is None,
    decreases j - i,
{
    if j > i {
        lemma_proc_stat_none_extends(ls, i, j - 1);
        assert(ls.take(j).drop_last() =~= ls.take(j - 1));
    }
}

/// Current frequency for one CPU, in MHz, from the raw content of its
/// `scaling_cur_freq` file (kHz); the division result is cast to `u32`.
pub fn read_cpu_freq_mhz(raw: Option<&str>) -> (r: Option<u32>)
    ensures
        r == match parsed::<u64>(opt_view(raw)) {
            Some(khz) => Some((khz / 1000) as u32),
            None => None,
        },
{
    match read_parse::<u64>(raw) {
        Some(khz) => Some((khz / 1000) as u32),
        None => None,
    }
}

/// The numbers after a `cpu` label are stored in the kernel's order: the
/// k-th number goes to the k-th of user, nice, system, idle, iowait, irq,
/// softirq and steal.
pub proof fn lemma_ticks_in_kernel_order(rest: Seq<Seq<char>>, v: Seq<u64>)
    requires
        rest.len() >= 8,
        v.len() == 8,
        forall|k: int| 0 <= k < 8 ==> parse_u64(#[trigger] rest[k]) == Some(v[k]),
    ensures
        ticks_of(rest) == (CpuTicks {
            user: v[0],
            nice: v[1],
            system: v[2],
            idle: v[3],
            iowait: v[4],
            irq: v[5],
            softirq: v[6],
            steal: v[7],
        }),
{
    assert(parse_u64(rest[0]) == Some(v[0]));
    assert(parse_u64(rest[1]) == Some(v[1]));
    assert(parse_u64(rest[2]) == Some(v[2]));
    assert(parse_u64(rest[3]) == Some(v[3]));
    assert(parse_u64(rest[4]) == Some(v[4]));
    assert(parse_u64(rest[5]) == Some(v[5]));
    assert(parse_u64(rest[6]) == Some(v[6]));
    assert(parse_u64(rest[7]) == Some(v[7]));
}

} // verus!
