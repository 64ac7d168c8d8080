//! Per-process accounting from `/proc/<pid>/*`: the readers of the pid
//! files, and the per-tick bookkeeping that decides which processes are
//! alive, which are dropped and how many ticks each one used.
use vstd::prelude::*;
use crate::table::{distinct_names, lemma_pairs_map_at, lemma_pairs_map_dom, pairs_map};
use crate::text::{
    contains, find_char, has_substring, last_index, lines, parse_i32, parse_i32_chars, parse_u64,
    parse_u64_chars, rsplit_once_char, slice_of, split_lines, split_ws, starts_with,
    strip_prefix_str, to_chars, to_string, tokens, trim, trim_chars, views,
};

verus! {

// ───────────────────────────── pid files ─────────────────────────────

/// The pids among the entry names of `/proc`: the names that parse as `i32`.
pub open spec fn pids_of(names: Seq<Seq<char>>) -> Seq<i32>
    decreases names.len(),
{
    if names.len() == 0 {
        Seq::empty()
    } else {
        match parse_i32(names.last()) {
            Some(p) => pids_of(names.drop_last()).push(p),
            None => pids_of(names.drop_last()),
        }
    }
}

pub open spec fn name_views(v: Seq<String>) -> Seq<Seq<char>> {
    v.map_values(|s: String| s@)
}

/// The pids named by the entries of `/proc`, in directory order.
pub fn enumerate_pids(names: &Vec<String>) -> (r: Vec<i32>)
    ensures
        r@ == pids_of(name_views(names@)),
{
    let mut out: Vec<i32> = Vec::new();
    let n = names.len();
    for k in 0..n
        invariant
            n == names.len(),
            out@ == pids_of(name_views(names@).take(k as int)),
    {
        assert(name_views(names@).take(k + 1).drop_last() =~= name_views(names@).take(k as int));
        let v = to_chars(names[k].as_str());
        match parse_i32_chars(&v) {
            Some(p) => out.push(p),
            None => {},
        }
    }
    assert(name_views(names@).take(n as int) =~= name_views(names@));
    out
}

/// What reading `/proc/<pid>/stat` gives.
pub enum PidStatOf {
    /// No `(` or no `)`, a non-ASCII character right after the last `)`, or
    /// a missing or unparsable utime/stime field.
    Absent,
    /// The text makes the reader slice out of bounds or overflow: the first
    /// `(` follows the last `)`, the last `)` ends the text, or
    /// utime + stime exceeds `u64::MAX`.
    Malformed,
    /// The command name (between the first `(` and the last `)`) and
    /// utime + stime.
    Parsed(Seq<char>, u64),
}

pub open spec fn pid_stat_of(s: Seq<char>) -> PidStatOf {
    let o = crate::text::find_from(s, 0, '(');
    let c = last_index(s, ')');
    if o >= s.len() || c < 0 {
        PidStatOf::Absent
    } else if o + 1 > c || c + 1 >= s.len() {
        PidStatOf::Malformed
    } else if (s[c + 1] as u32) >= 0x80 {
        PidStatOf::Absent
    } else {
        let fields = tokens(s.skip(c + 2));
        if fields.len() < 13 {
            PidStatOf::Absent
        } else {
            match (parse_u64(fields[11]), parse_u64(fields[12])) {
                (Some(u), Some(t)) => if u + t > u64::MAX {
                    PidStatOf::Malformed
                } else {
                    PidStatOf::Parsed(s.subrange(o + 1, c), (u + t) as u64)
                },
                _ => PidStatOf::Absent,
            }
        }
    }
}

/// The outcome of reading one stat file.
pub enum PidStat {
    Absent,
    Malformed,
    Parsed(String, u64),
}

fn pid_stat(text: &str) -> (r: PidStat)
    ensures
        match r {
            PidStat::Absent => pid_stat_of(text@) is Absent,
            PidStat::Malformed => pid_stat_of(text@) is Malformed,
            PidStat::Parsed(c, t) => pid_stat_of(text@) == PidStatOf::Parsed(c@, t),
        },
{
    let s = to_chars(text);
    let o = find_char(&s, 0, '(');
    proof {
        crate::text::lemma_find_from_bounds(s@, 0, '(');
    }
    let mut c = s.len();
    assert(s@.take(c as int) =~= s@);
    while c > 0 && s[c - 1] != ')'
        invariant
            c <= s.len(),
            last_index(s@, ')') == last_index(s@.take(c as int), ')'),
        decreases c,
    {
        assert(s@.take(c as int).drop_last() =~= s@.take(c - 1));
        c -= 1;
    }
    if o >= s.len() || c == 0 {
        proof {
            if c == 0 {
                assert(s@.take(0) =~= Seq::<char>::empty());
            }
        }
        return PidStat::Absent;
    }
    let c = c - 1;
    if o + 1 > c || c + 1 >= s.len() {
        return PidStat::Malformed;
    }
    if (s[c + 1] as u32) >= 0x80 {
        return PidStat::Absent;
    }
    let after = slice_of(&s, c + 2, s.len());
    assert(after@ =~= s@.skip(c + 2));
    let fields = split_ws(&after);
    if fields.len() < 13 {
        return PidStat::Absent;
    }
    assert(views(fields@)[11] == fields@[11]@);
    assert(views(fields@)[12] == fields@[12]@);
    let u = match parse_u64_chars(&fields[11]) {
        Some(u) => u,
        None => return PidStat::Absent,
    };
    let t = match parse_u64_chars(&fields[12]) {
        Some(t) => t,
        None => return PidStat::Absent,
    };
    if u > u64::MAX - t {
        return PidStat::Malformed;
    }
    let comm = slice_of(&s, o + 1, c);
    PidStat::Parsed(to_string(&comm), u + t)
}

/// Whether a `/proc/<pid>/stat` text is one that `read_pid_stat` cannot
/// take (it would slice out of bounds or overflow).
pub fn pid_stat_is_malformed(text: &str) -> (r: bool)
    ensures
        r == (pid_stat_of(text@) is Malformed),
{
    match pid_stat(text) {
        PidStat::Malformed => true,
        _ => false,
    }
}

/// Returns (comm, total CPU ticks = utime + stime) from the text of
/// `/proc/<pid>/stat`.
pub fn read_pid_stat(text: &str) -> (r: Option<(String, u64)>)
    requires
        !(pid_stat_of(text@) is Malformed),
    ensures
        match r {
            Some((c, t)) => pid_stat_of(text@) == PidStatOf::Parsed(c@, t),
            None => pid_stat_of(text@) is Absent,
        },
{
    match pid_stat(text) {
        PidStat::Parsed(c, t) => Some((c, t)),
        _ => None,
    }
}

/// The render-engine nanoseconds that one `drm-engine-render:` line reports:
/// its first word, 0 when that does not parse.
pub open spec fn render_line_ns(rest: Seq<char>) -> u64 {
    let w = tokens(trim(rest));
    if w.len() > 0 {
        match parse_u64(w[0]) {
            Some(v) => v,
            None => 0,
        }
    } else {
        0
    }
}

pub open spec fn sat_add(a: u64, b: u64) -> u64 {
    if a + b > u64::MAX {
        u64::MAX
    } else {
        (a + b) as u64
    }
}

/// The render nanoseconds summed (saturating) over the lines of one fdinfo.
pub open spec fn render_lines_ns(ls: Seq<Seq<char>>) -> u64
    decreases ls.len(),
{
    if ls.len() == 0 {
        0
    } else {
        let prior = render_lines_ns(ls.drop_last());
        if starts_with(ls.last(), "drm-engine-render:"@) {
            sat_add(prior, render_line_ns(ls.last().skip("drm-engine-render:"@.len() as int)))
        } else {
            prior
        }
    }
}

/// The render nanoseconds summed (saturating) over the fdinfo texts that
/// carry a `drm-driver:` marker.
pub open spec fn render_ns_of(texts: Seq<Seq<char>>) -> u64
    decreases texts.len(),
{
    if texts.len() == 0 {
        0
    } else {
        let prior = render_ns_of(texts.drop_last());
        if contains(texts.last(), "drm-driver:"@) {
            sat_add_lines(prior, lines(texts.last()))
        } else {
            prior
        }
    }
}

/// `acc` with the render lines of one fdinfo added, line by line.
pub open spec fn sat_add_lines(acc: u64, ls: Seq<Seq<char>>) -> u64
    decreases ls.len(),
{
    if ls.len() == 0 {
        acc
    } else {
        let prior = sat_add_lines(acc, ls.drop_last());
        if starts_with(ls.last(), "drm-engine-render:"@) {
            sat_add(prior, render_line_ns(ls.last().skip("drm-engine-render:"@.len() as int)))
        } else {
            prior
        }
    }
}

/// Sums DRM render-engine busy nanoseconds over the readable fdinfo entries
/// of a process (`fdinfos` holds their texts).
pub fn read_pid_render_ns(fdinfos: &Vec<String>) -> (r: u64)
    ensures
        r == render_ns_of(name_views(fdinfos@)),
{
    let mut total: u64 = 0;
    let n = fdinfos.len();
    let marker = to_chars("drm-driver:");
    for k in 0..n
        invariant
            n == fdinfos.len(),
            marker@ == "drm-driver:"@,
            total == render_ns_of(name_views(fdinfos@).take(k as int)),
    {
        assert(name_views(fdinfos@).take(k + 1).drop_last() =~= name_views(fdinfos@).take(k as int));
        let text = to_chars(fdinfos[k].as_str());
        if has_substring(&text, &marker) {
            let ls = split_lines(&text);
            let ghost acc0 = total;
            let m = ls.len();
            for j in 0..m
                invariant
                    m == ls.len(),
                    total == sat_add_lines(acc0, views(ls@).take(j as int)),
            {
                assert(views(ls@).take(j + 1).drop_last() =~= views(ls@).take(j as int));
                assert(views(ls@)[j as int] == ls@[j as int]@);
                match strip_prefix_str(&ls[j], "drm-engine-render:") {
                    Some(rest) => {
                        let t = trim_chars(&rest);
                        let w = split_ws(&t);
                        let ns: u64 = if w.len() > 0 {
                            assert(views(w@)[0] == w@[0]@);
                            match parse_u64_chars(&w[0]) {
                                Some(v) => v,
                                None => 0,
                            }
                        } else {
                            0
                        };
                        total = total.saturating_add(ns);
                    },
                    None => {},
                }
            }
            assert(views(ls@).take(m as int) =~= views(ls@));
        }
    }
    assert(name_views(fdinfos@).take(n as int) =~= name_views(fdinfos@));
    total
}

/// The value after `read_bytes:` / `write_bytes:`, 0 when it does not parse.
pub open spec fn io_value(rest: Seq<char>) -> u64 {
    match parse_u64(trim(rest)) {
        Some(v) => v,
        None => 0,
    }
}

/// (read_bytes, write_bytes) of `/proc/<pid>/io`; a later line replaces an
/// earlier one.
pub open spec fn io_of(ls: Seq<Seq<char>>) -> (u64, u64)
    decreases ls.len(),
{
    if ls.len() == 0 {
        (0, 0)
    } else {
        let (r, w) = io_of(ls.drop_last());
        let l = ls.last();
        if starts_with(l, "read_bytes:"@) {
            (io_value(l.skip("read_bytes:"@.len() as int)), w)
        } else if starts_with(l, "write_bytes:"@) {
            (r, io_value(l.skip("write_bytes:"@.len() as int)))
        } else {
            (r, w)
        }
    }
}

/// (read_bytes, write_bytes) from the text of `/proc/<pid>/io`.
pub fn read_pid_io(text: &str) -> (r: (u64, u64))
    ensures
        r == io_of(lines(text@)),
{
    let s = to_chars(text);
    let ls = split_lines(&s);
    let mut r: u64 = 0;
    let mut w: u64 = 0;
    let n = ls.len();
    for k in 0..n
        invariant
            n == ls.len(),
            views(ls@) == lines(text@),
            (r, w) == io_of(views(ls@).take(k as int)),
    {
        assert(views(ls@).take(k + 1).drop_last() =~= views(ls@).take(k as int));
        assert(views(ls@)[k as int] == ls@[k as int]@);
        match strip_prefix_str(&ls[k], "read_bytes:") {
            Some(v) => {
                let t = trim_chars(&v);
                r = match parse_u64_chars(&t) {
                    Some(x) => x,
                    None => 0,
                };
            },
            None => match strip_prefix_str(&ls[k], "write_bytes:") {
                Some(v) => {
                    let t = trim_chars(&v);
                    w = match parse_u64_chars(&t) {
                        Some(x) => x,
                        None => 0,
                    };
                },
                None => {},
            },
        }
    }
    assert(views(ls@).take(n as int) =~= views(ls@));
    (r, w)
}

pub open spec fn sat_mul(a: u64, b: u64) -> u64 {
    if a * b > u64::MAX {
        u64::MAX
    } else {
        (a * b) as u64
    }
}

/// The page size used: what `sysconf(_SC_PAGESIZE)` gave, or 4096 when it
/// gave a non-positive value.
pub open spec fn page_size_of(raw: i64) -> u64 {
    if raw <= 0 {
        4096
    } else {
        raw as u64
    }
}

/// Resident bytes from `/proc/<pid>/statm`: the second field (pages) times
/// the page size, saturating.
pub open spec fn rss_of(text: Seq<char>, page_size_raw: i64) -> Option<u64> {
    let f = tokens(text);
    if f.len() < 2 {
        None
    } else {
        match parse_u64(f[1]) {
            Some(pages) => Some(sat_mul(pages, page_size_of(page_size_raw))),
            None => None,
        }
    }
}

fn saturating_mul_u64(a: u64, b: u64) -> (r: u64)
    ensures
        r == sat_mul(a, b),
{
    if b != 0 && a > u64::MAX / b {
        proof {
            assert(a * b > u64::MAX) by (nonlinear_arith)
                requires
                    b > 0,
                    a > u64::MAX / b,
            ;
        }
        u64::MAX
    } else {
        proof {
            if b != 0 {
                assert(a * b <= u64::MAX) by (nonlinear_arith)
                    requires
                        b > 0,
                        a <= u64::MAX / b,
                ;
            }
        }
        a * b
    }
}

/// Resident set size in bytes from the text of `/proc/<pid>/statm`, given
/// what `sysconf(_SC_PAGESIZE)` returned.
pub fn read_pid_rss_bytes(text: &str, page_size_raw: i64) -> (r: Option<u64>)
    ensures
        r == rss_of(text@, page_size_raw),
{
    let s = to_chars(text);
    let f = split_ws(&s);
    if f.len() < 2 {
        return None;
    }
    assert(views(f@)[1] == f@[1]@);
    let pages = match parse_u64_chars(&f[1]) {
        Some(p) => p,
        None => return None,
    };
    let page_size: u64 = if page_size_raw <= 0 {
        4096
    } else {
        page_size_raw as u64
    };
    Some(saturating_mul_u64(pages, page_size))
}

// ───────────────────────────── per-tick bookkeeping ─────────────────────────────

/// One pid's accumulated state across ticks.
#[derive(Debug)]
pub struct PidState {
    pub name: String,
    pub last_ticks: u64,
    pub last_render_ns: u64,
    pub last_disk_read: u64,
    pub last_disk_write: u64,
    pub alive: bool,
    /// Ticks in a row that the pid was missing.
    pub dead_count: u32,
}

/// What was read for one visible pid this tick.
#[derive(Debug)]
pub struct PidSample {
    pub pid: i32,
    pub name: String,
    pub ticks: u64,
    pub render_ns: u64,
    pub disk_read: u64,
    pub disk_write: u64,
    pub rss_bytes: u64,
}

/// A visible pid's share of a tick: its ticks and render nanoseconds since
/// its last sample, 0 for a pid seen for the first time.
#[derive(Debug, Clone, Copy)]
pub struct PidAttribution {
    pub pid: i32,
    pub ticks: u64,
    pub render_ns: u64,
}

/// One followed process after a tick.
#[derive(Debug)]
pub struct ProcessRow {
    pub pid: i32,
    pub name: String,
    pub alive: bool,
    pub disk_read: u64,
    pub disk_write: u64,
    pub phys_mem: u64,
    /// Ticks and render nanoseconds the pid used this tick (0 when it was
    /// not visible or was seen for the first time).
    pub tick_delta: u64,
    pub render_delta_ns: u64,
}

/// What one tick produced.
#[derive(Debug)]
pub struct TickReport {
    /// Energy of the cores / the GPU since the previous tick (none on the first).
    pub pp0_delta_uj: Option<u64>,
    pub pp1_delta_uj: Option<u64>,
    /// Ticks and render nanoseconds used since the previous tick by the pids
    /// that were already followed.
    pub total_tick_delta: u64,
    pub total_render_delta: u64,
    /// One entry per visible pid, in sample order.
    pub attributions: Vec<PidAttribution>,
    /// The pids dropped this tick.
    pub dropped: Vec<i32>,
    /// Every followed pid, once each.
    pub rows: Vec<ProcessRow>,
}

/// Per-process bookkeeping across ticks: the followed pids (each once) and
/// the last energy counters.
#[derive(Debug)]
pub struct ProcStatState {
    entries: Vec<(i32, PidState)>,
    last_pp0_uj: Option<u64>,
    last_pp1_uj: Option<u64>,
}

/// The number of ticks in a row a pid may be missing before it is dropped.
pub const DEAD_LIMIT: u32 = 30;

pub open spec fn sat_sub(a: u64, b: u64) -> u64 {
    if a >= b {
        (a - b) as u64
    } else {
        0
    }
}

pub open spec fn sat_inc(x: u32) -> u32 {
    if x == u32::MAX {
        u32::MAX
    } else {
        (x + 1) as u32
    }
}

pub open spec fn sample_pairs(snap: Seq<PidSample>) -> Seq<(i32, PidSample)> {
    snap.map_values(|s: PidSample| (s.pid, s))
}

pub open spec fn distinct_pids(snap: Seq<PidSample>) -> bool {
    distinct_names(sample_pairs(snap))
}

/// The samples keyed by pid.
pub open spec fn sample_map(snap: Seq<PidSample>) -> Map<i32, PidSample> {
    pairs_map(sample_pairs(snap))
}

/// Ticks used since the last tick by the already followed pids of `snap`.
pub open spec fn tick_sum(old: Map<i32, PidState>, snap: Seq<PidSample>) -> int
    decreases snap.len(),
{
    if snap.len() == 0 {
        0
    } else {
        let s = snap.last();
        tick_sum(old, snap.drop_last()) + if old.contains_key(s.pid) {
            sat_sub(s.ticks, old[s.pid].last_ticks) as int
        } else {
            0
        }
    }
}

/// Render nanoseconds used since the last tick by the already followed pids.
pub open spec fn render_sum(old: Map<i32, PidState>, snap: Seq<PidSample>) -> int
    decreases snap.len(),
{
    if snap.len() == 0 {
        0
    } else {
        let s = snap.last();
        render_sum(old, snap.drop_last()) + if old.contains_key(s.pid) {
            sat_sub(s.render_ns, old[s.pid].last_render_ns) as int
        } else {
            0
        }
    }
}

/// The state of a pid that was seen this tick.
pub open spec fn fresh(s: PidSample) -> PidState {
    PidState {
        name: s.name,
        last_ticks: s.ticks,
        last_render_ns: s.render_ns,
        last_disk_read: s.disk_read,
        last_disk_write: s.disk_write,
        alive: true,
        dead_count: 0,
    }
}

/// The state of a followed pid that was not seen this tick.
pub open spec fn aged(st: PidState) -> PidState {
    PidState {
        name: st.name,
        last_ticks: st.last_ticks,
        last_render_ns: st.last_render_ns,
        last_disk_read: st.last_disk_read,
        last_disk_write: st.last_disk_write,
        alive: false,
        dead_count: sat_inc(st.dead_count),
    }
}

/// Whether a followed pid that was not seen this tick is dropped: it has now
/// been missing for more than `DEAD_LIMIT` ticks in a row.
pub open spec fn expires(st: PidState) -> bool {
    sat_inc(st.dead_count) > DEAD_LIMIT
}

/// The previously followed pids after a tick, in their order: refreshed when
/// seen, aged when not, left out when expired.
pub open spec fn kept(es: Seq<(i32, PidState)>, cur: Map<i32, PidSample>) -> Seq<(i32, PidState)>
    decreases es.len(),
{
    if es.len() == 0 {
        Seq::empty()
    } else {
        let prior = kept(es.drop_last(), cur);
        let (p, st) = es.last();
        if cur.contains_key(p) {
            prior.push((p, fresh(cur[p])))
        } else if expires(st) {
            prior
        } else {
            prior.push((p, aged(st)))
        }
    }
}

/// The pids that expire this tick, in tracking order.
pub open spec fn expired(es: Seq<(i32, PidState)>, cur: Map<i32, PidSample>) -> Seq<i32>
    decreases es.len(),
{
    if es.len() == 0 {
        Seq::empty()
    } else {
        let prior = expired(es.drop_last(), cur);
        let (p, st) = es.last();
        if !cur.contains_key(p) && expires(st) {
            prior.push(p)
        } else {
            prior
        }
    }
}

/// The newly seen pids, fresh, in sample order.
pub open spec fn added(snap: Seq<PidSample>, old: Map<i32, PidState>) -> Seq<(i32, PidState)>
    decreases snap.len(),
{
    if snap.len() == 0 {
        Seq::empty()
    } else {
        let prior = added(snap.drop_last(), old);
        let s = snap.last();
        if old.contains_key(s.pid) {
            prior
        } else {
            prior.push((s.pid, fresh(s)))
        }
    }
}

/// The share of this tick's work of a visible pid: the ticks and render
/// nanoseconds since its last sample when it was already followed (counters
/// that went backwards count as 0), nothing for a pid seen for the first time.
pub open spec fn attribution_of(old: Map<i32, PidState>, s: PidSample) -> PidAttribution {
    if old.contains_key(s.pid) {
        PidAttribution {
            pid: s.pid,
            ticks: sat_sub(s.ticks, old[s.pid].last_ticks),
            render_ns: sat_sub(s.render_ns, old[s.pid].last_render_ns),
        }
    } else {
        PidAttribution { pid: s.pid, ticks: 0, render_ns: 0 }
    }
}

/// The row of a followed pid after a tick: its current disk and memory
/// figures and its share of this tick's work when it is visible, zeros
/// when it is not.
pub open spec fn row_of(e: (i32, PidState), old: Map<i32, PidState>, cur: Map<i32, PidSample>) -> (
    i32,
    Seq<char>,
    bool,
    u64,
    u64,
    u64,
    u64,
    u64,
) {
    let (p, st) = e;
    if cur.contains_key(p) {
        let s = cur[p];
        let a = attribution_of(old, s);
        (p, st.name@, st.alive, s.disk_read, s.disk_write, s.rss_bytes, a.ticks, a.render_ns)
    } else {
        (p, st.name@, st.alive, 0, 0, 0, 0, 0)
    }
}

pub open spec fn row_view(r: ProcessRow) -> (i32, Seq<char>, bool, u64, u64, u64, u64, u64) {
    (
        r.pid,
        r.name@,
        r.alive,
        r.disk_read,
        r.disk_write,
        r.phys_mem,
        r.tick_delta,
        r.render_delta_ns,
    )
}

pub open spec fn opt_sub(last: Option<u64>, now: u64) -> Option<u64> {
    match last {
        Some(p) => Some(sat_sub(now, p)),
        None => None,
    }
}

fn find_sample(snap: &Vec<PidSample>, pid: i32) -> (r: Option<usize>)
    requires
        distinct_pids(snap@),
    ensures
        match r {
            Some(j) => j < snap@.len() && snap@[j as int].pid == pid && sample_map(snap@).contains_key(pid)
                && sample_map(snap@)[pid] == snap@[j as int],
            None => !sample_map(snap@).contains_key(pid),
        },
{
    let n = snap.len();
    let mut j: usize = 0;
    while j < n
        invariant
            n == snap.len(),
            j <= n,
            distinct_pids(snap@),
            forall|i: int| 0 <= i < j ==> #[trigger] snap@[i].pid != pid,
        decreases n - j,
    {
        if snap[j].pid == pid {
            proof {
                lemma_pairs_map_at(sample_pairs(snap@), j as int);
            }
            return Some(j);
        }
        j += 1;
    }
    proof {
        lemma_pairs_map_dom(sample_pairs(snap@), pid);
        if sample_map(snap@).contains_key(pid) {
            let i = choose|i: int| 0 <= i < sample_pairs(snap@).len() && #[trigger] sample_pairs(snap@)[i].0 == pid;
            assert(snap@[i].pid == pid);
        }
    }
    None
}

fn find_entry(es: &Vec<(i32, PidState)>, pid: i32) -> (r: Option<usize>)
    requires
        distinct_names(es@),
    ensures
        match r {
            Some(j) => j < es@.len() && es@[j as int].0 == pid && pairs_map(es@).contains_key(pid)
                && pairs_map(es@)[pid] == es@[j as int].1,
            None => !pairs_map(es@).contains_key(pid),
        },
{
    let n = es.len();
    let mut j: usize = 0;
    while j < n
        invariant
            n == es.len(),
            j <= n,
            distinct_names(es@),
            forall|i: int| 0 <= i < j ==> #[trigger] es@[i].0 != pid,
        decreases n - j,
    {
        if es[j].0 == pid {
            proof {
                lemma_pairs_map_at(es@, j as int);
            }
            return Some(j);
        }
        j += 1;
    }
    proof {
        lemma_pairs_map_dom(es@, pid);
    }
    None
}

proof fn lemma_sums_grow(old: Map<i32, PidState>, snap: Seq<PidSample>, k: int)
    requires
        0 <= k <= snap.len(),
    ensures
        tick_sum(old, snap.take(k)) <= tick_sum(old, snap),
        render_sum(old, snap.take(k)) <= render_sum(old, snap),
    decreases snap.len() - k,
{
    if k < snap.len() {
        lemma_sums_grow(old, snap, k + 1);
        assert(snap.take(k + 1).drop_last() =~= snap.take(k));
    } else {
        assert(snap.take(k) =~= snap);
    }
}

impl ProcStatState {
    /// The followed pids and their states, in tracking order.
    pub closed spec fn watched(&self) -> Seq<(i32, PidState)> {
        self.entries@
    }

    pub closed spec fn pp0(&self) -> Option<u64> {
        self.last_pp0_uj
    }

    pub closed spec fn pp1(&self) -> Option<u64> {
        self.last_pp1_uj
    }

    /// Each pid is followed once.
    pub open spec fn wf(&self) -> bool {
        distinct_names(self.watched())
    }

    /// The followed pids keyed by pid.
    pub open spec fn pid_map(&self) -> Map<i32, PidState> {
        pairs_map(self.watched())
    }

    /// No pid followed, no energy reading yet.
    pub fn new() -> (r: Self)
        ensures
            r.wf(),
            r.watched().len() == 0,
            r.pp0() is None,
            r.pp1() is None,
    {
        ProcStatState { entries: Vec::new(), last_pp0_uj: None, last_pp1_uj: None }
    }

    /// One tick: takes the cores and GPU energy counters (µJ) and the pids
    /// visible now, updates which pids are followed, and reports the energy
    /// and tick deltas needed to apportion energy to processes. `None` when
    /// the tick totals overflow `u64` (the state is then left unchanged).
    pub fn sample(&mut self, pp0_uj: u64, pp1_uj: u64, snap: &Vec<PidSample>) -> (r: Option<TickReport>)
        requires
            old(self).wf(),
            distinct_pids(snap@),
        ensures
            final(self).wf(),
            match r {
                None => {
                    &&& tick_sum(old(self).pid_map(), snap@) > u64::MAX || render_sum(
                        old(self).pid_map(),
                        snap@,
                    ) > u64::MAX
                    &&& final(self).watched() == old(self).watched()
                    &&& final(self).pp0() == old(self).pp0()
                    &&& final(self).pp1() == old(self).pp1()
                },
                Some(rep) => {
                    let old_m = old(self).pid_map();
                    let cur = sample_map(snap@);
                    &&& tick_sum(old_m, snap@) <= u64::MAX
                    &&& render_sum(old_m, snap@) <= u64::MAX
                    &&& rep.total_tick_delta == tick_sum(old_m, snap@)
                    &&& rep.total_render_delta == render_sum(old_m, snap@)
                    &&& rep.pp0_delta_uj == opt_sub(old(self).pp0(), pp0_uj)
                    &&& rep.pp1_delta_uj == opt_sub(old(self).pp1(), pp1_uj)
                    &&& final(self).pp0() == Some(pp0_uj)
                    &&& final(self).pp1() == Some(pp1_uj)
                    &&& final(self).watched() == kept(old(self).watched(), cur) + added(snap@, old_m)
                    &&& final(self).pid_map() == next_pids(old_m, cur)
                    &&& attributed_ticks(rep.attributions@) == rep.total_tick_delta
                    &&& attributed_render(rep.attributions@) == rep.total_render_delta
                    &&& rep.dropped@ == expired(old(self).watched(), cur)
                    &&& rep.attributions@ == snap@.map_values(
                        |s: PidSample| attribution_of(old_m, s),
                    )
                    &&& rep.rows@.map_values(|x: ProcessRow| row_view(x)) == final(self).watched().map_values(|e: (i32, PidState)| row_of(e, old_m, cur))
                },
            },
    {
        let ghost old_es = self.entries@;
        let ghost old_m = pairs_map(old_es);
        let ghost cur = sample_map(snap@);
        let n = snap.len();
        // Totals over the pids that were already followed.
        let mut total_ticks: u64 = 0;
        let mut total_render: u64 = 0;
        let mut attributions: Vec<PidAttribution> = Vec::new();
        for k in 0..n
            invariant
                n == snap.len(),
                old_es == self.entries@,
                old_m == pairs_map(old_es),
                distinct_names(old_es),
                total_ticks == tick_sum(old_m, snap@.take(k as int)),
                total_render == render_sum(old_m, snap@.take(k as int)),
                attributions@ == snap@.take(k as int).map_values(
                    |s: PidSample| attribution_of(old_m, s),
                ),
        {
            assert(snap@.take(k + 1).drop_last() =~= snap@.take(k as int));
            let s = &snap[k];
            let (found, last_ticks, last_render) = match find_entry(&self.entries, s.pid) {
                Some(i) => (true, self.entries[i].1.last_ticks, self.entries[i].1.last_render_ns),
                None => (false, 0, 0),
            };
            let dt = s.ticks.saturating_sub(last_ticks);
            let dr = s.render_ns.saturating_sub(last_render);
            assert(snap@.take(k + 1).last() == snap@[k as int]);
            let (add_t, add_r) = if found {
                (dt, dr)
            } else {
                (0, 0)
            };
            assert(tick_sum(old_m, snap@.take(k + 1)) == total_ticks + add_t);
            assert(render_sum(old_m, snap@.take(k + 1)) == total_render + add_r);
            if total_ticks > u64::MAX - add_t || total_render > u64::MAX - add_r {
                proof {
                    lemma_sums_grow(old_m, snap@, k as int + 1);
                }
                return None;
            }
            total_ticks = total_ticks + add_t;
            total_render = total_render + add_r;
            attributions.push(PidAttribution { pid: s.pid, ticks: add_t, render_ns: add_r });
            assert(attributions@ =~= snap@.take(k + 1).map_values(
                |s: PidSample| attribution_of(old_m, s),
            ));
        }
        assert(snap@.take(n as int) =~= snap@);

        let pp0_delta_uj = match self.last_pp0_uj {
            Some(p) => Some(pp0_uj.saturating_sub(p)),
            None => None,
        };
        let pp1_delta_uj = match self.last_pp1_uj {
            Some(p) => Some(pp1_uj.saturating_sub(p)),
            None => None,
        };

        // The previously followed pids: refreshed, aged or dropped.
        let mut next: Vec<(i32, PidState)> = Vec::new();
        let mut dropped: Vec<i32> = Vec::new();
        let m = self.entries.len();
        for i in 0..m
            invariant
                m == self.entries.len(),
                old_es == self.entries@,
                distinct_names(old_es),
                distinct_pids(snap@),
                cur == sample_map(snap@),
                next@ == kept(old_es.take(i as int), cur),
                dropped@ == expired(old_es.take(i as int), cur),
                distinct_names(next@),
                forall|a: int| 0 <= a < next@.len() ==> exists|b: int| 0 <= b < i && #[trigger] old_es[b].0 == #[trigger] next@[a].0,
        {
            assert(old_es.take(i + 1).drop_last() =~= old_es.take(i as int));
            let p = self.entries[i].0;
            let ghost before = next@;
            match find_sample(snap, p) {
                Some(j) => {
                    let s = &snap[j];
                    next.push(
                        (
                            p,
                            PidState {
                                name: s.name.clone(),
                                last_ticks: s.ticks,
                                last_render_ns: s.render_ns,
                                last_disk_read: s.disk_read,
                                last_disk_write: s.disk_write,
                                alive: true,
                                dead_count: 0,
                            },
                        ),
                    );
                },
                None => {
                    let st = &self.entries[i].1;
                    let dc = if st.dead_count == u32::MAX {
                        u32::MAX
                    } else {
                        st.dead_count + 1
                    };
                    if dc > DEAD_LIMIT {
                        dropped.push(p);
                    } else {
                        next.push(
                            (
                                p,
                                PidState {
                                    name: st.name.clone(),
                                    last_ticks: st.last_ticks,
                                    last_render_ns: st.last_render_ns,
                                    last_disk_read: st.last_disk_read,
                                    last_disk_write: st.last_disk_write,
                                    alive: false,
                                    dead_count: dc,
                                },
                            ),
                        );
                    }
                },
            }
            proof {
                assert forall|a: int| 0 <= a < before.len() implies #[trigger] before[a].0 != p by {
                    let b = choose|b: int| 0 <= b < i && #[trigger] old_es[b].0 == #[trigger] before[a].0;
                    assert(old_es[b].0 != old_es[i as int].0);
                }
                assert forall|a: int| 0 <= a < next@.len() implies exists|b: int| 0 <= b < i + 1 && #[trigger] old_es[b].0 == #[trigger] next@[a].0 by {
                    if a < before.len() {
                        assert(next@[a] == before[a]);
                        let b = choose|b: int| 0 <= b < i && #[trigger] old_es[b].0 == #[trigger] before[a].0;
                        assert(old_es[b].0 == next@[a].0);
                    } else {
                        assert(old_es[i as int].0 == next@[a].0);
                    }
                }
            }
        }
        assert(old_es.take(m as int) =~= old_es);

        // The newly seen pids.
        let ghost kept_part = next@;
        for k in 0..n
            invariant
                n == snap.len(),
                old_es == self.entries@,
                distinct_names(old_es),
                old_m == pairs_map(old_es),
                distinct_pids(snap@),
                kept_part == kept(old_es, cur),
                next@ == kept_part + added(snap@.take(k as int), old_m),
                distinct_names(next@),
                forall|a: int| 0 <= a < next@.len() ==> (exists|b: int| 0 <= b < old_es.len() && #[trigger] old_es[b].0 == #[trigger] next@[a].0) || (exists|b: int| 0 <= b < k && #[trigger] snap@[b].pid == next@[a].0),
        {
            assert(snap@.take(k + 1).drop_last() =~= snap@.take(k as int));
            let s = &snap[k];
            let ghost before = next@;
            match find_entry(&self.entries, s.pid) {
                Some(_) => {},
                None => {
                    next.push(
                        (
                            s.pid,
                            PidState {
                                name: s.name.clone(),
                                last_ticks: s.ticks,
                                last_render_ns: s.render_ns,
                                last_disk_read: s.disk_read,
                                last_disk_write: s.disk_write,
                                alive: true,
                                dead_count: 0,
                            },
                        ),
                    );
                    proof {
                        assert forall|a: int| 0 <= a < before.len() implies #[trigger] before[a].0 != s.pid by {
                            if exists|b: int| 0 <= b < old_es.len() && #[trigger] old_es[b].0 == #[trigger] before[a].0 {
                                let b = choose|b: int| 0 <= b < old_es.len() && #[trigger] old_es[b].0 == #[trigger] before[a].0;
                                lemma_pairs_map_at(old_es, b);
                            } else {
                                let b = choose|b: int| 0 <= b < k && #[trigger] snap@[b].pid == before[a].0;
                                assert(sample_pairs(snap@)[b].0 != sample_pairs(snap@)[k as int].0);
                            }
                        }
                    }
                },
            }
            assert(next@ =~= kept_part + added(snap@.take(k + 1), old_m));
            proof {
                assert forall|a: int| 0 <= a < next@.len() implies (exists|b: int| 0 <= b < old_es.len() && #[trigger] old_es[b].0 == #[trigger] next@[a].0) || (exists|b: int| 0 <= b < k + 1 && #[trigger] snap@[b].pid == next@[a].0) by {
                    if a < before.len() {
                        assert(next@[a] == before[a]);
                    } else {
                        assert(snap@[k as int].pid == next@[a].0);
                    }
                }
            }
        }
        assert(snap@.take(n as int) =~= snap@);

        // One row per followed pid.
        let mut rows: Vec<ProcessRow> = Vec::new();
        let t = next.len();
        for i in 0..t
            invariant
                t == next.len(),
                distinct_pids(snap@),
                cur == sample_map(snap@),
                old_es == self.entries@,
                old_m == pairs_map(old_es),
                distinct_names(old_es),
                rows@.len() == i,
                rows@.map_values(|x: ProcessRow| row_view(x)) == next@.take(i as int).map_values(
                    |e: (i32, PidState)| row_of(e, old_m, cur),
                ),
        {
            let (pid, st) = (next[i].0, &next[i].1);
            let (disk_read, disk_write, phys_mem, tick_delta, render_delta_ns) = match find_sample(snap, pid) {
                Some(j) => {
                    let s = &snap[j];
                    let (dt, dr) = match find_entry(&self.entries, pid) {
                        Some(e) => (
                            s.ticks.saturating_sub(self.entries[e].1.last_ticks),
                            s.render_ns.saturating_sub(self.entries[e].1.last_render_ns),
                        ),
                        None => (0, 0),
                    };
                    (s.disk_read, s.disk_write, s.rss_bytes, dt, dr)
                },
                None => (0, 0, 0, 0, 0),
            };
            let ghost prev_rows = rows@;
            rows.push(
                ProcessRow {
                    pid,
                    name: st.name.clone(),
                    alive: st.alive,
                    disk_read,
                    disk_write,
                    phys_mem,
                    tick_delta,
                    render_delta_ns,
                },
            );
            assert(row_view(rows@[i as int]) == row_of(next@[i as int], old_m, cur));
            assert(rows@.map_values(|x: ProcessRow| row_view(x)) =~= prev_rows.map_values(|x: ProcessRow| row_view(x)).push(row_view(rows@[i as int])));
            assert(next@.take(i + 1).map_values(|e: (i32, PidState)| row_of(e, old_m, cur)) =~= next@.take(i as int).map_values(|e: (i32, PidState)| row_of(e, old_m, cur)).push(row_of(next@[i as int], old_m, cur)));
            assert(rows@.map_values(|x: ProcessRow| row_view(x)) =~= next@.take(i + 1).map_values(
                |e: (i32, PidState)| row_of(e, old_m, cur),
            ));
        }
        assert(next@.take(t as int) =~= next@);

        proof {
            lemma_tick_updates_pids(old_es, snap@);
            lemma_attributions_add_up(old_m, snap@);
        }
        self.entries = next;
        self.last_pp0_uj = Some(pp0_uj);
        self.last_pp1_uj = Some(pp1_uj);
        Some(
            TickReport {
                pp0_delta_uj,
                pp1_delta_uj,
                total_tick_delta: total_ticks,
                total_render_delta: total_render,
                attributions,
                dropped,
                rows,
            },
        )
    }
}

/// The pids followed after a tick, by pid: every seen pid fresh, every other
/// followed pid aged unless it expires.
pub open spec fn next_pids(old: Map<i32, PidState>, cur: Map<i32, PidSample>) -> Map<i32, PidState> {
    Map::new(
        |p: i32| cur.contains_key(p) || (old.contains_key(p) && !expires(old[p])),
        |p: i32|
            if cur.contains_key(p) {
                fresh(cur[p])
            } else {
                aged(old[p])
            },
    )
}

proof fn lemma_pairs_map_concat<K, V>(a: Seq<(K, V)>, b: Seq<(K, V)>)
    ensures
        pairs_map(a + b) == pairs_map(a).union_prefer_right(pairs_map(b)),
    decreases b.len(),
{
    if b.len() == 0 {
        assert(a + b =~= a);
        assert(pairs_map(a).union_prefer_right(pairs_map(b)) =~= pairs_map(a));
    } else {
        lemma_pairs_map_concat(a, b.drop_last());
        assert((a + b).drop_last() =~= a + b.drop_last());
        assert((a + b).last() == b.last());
        assert(pairs_map(a + b) =~= pairs_map(a).union_prefer_right(pairs_map(b)));
    }
}

proof fn lemma_kept_map(es: Seq<(i32, PidState)>, cur: Map<i32, PidSample>)
    requires
        distinct_names(es),
    ensures
        forall|p: i32| #[trigger] pairs_map(kept(es, cur)).contains_key(p) <==> (pairs_map(es).contains_key(p) && (
            cur.contains_key(p) || !expires(pairs_map(es)[p]))),
        forall|p: i32| #[trigger] pairs_map(kept(es, cur)).contains_key(p) ==> pairs_map(kept(es, cur))[p] == (
            if cur.contains_key(p) {
                fresh(cur[p])
            } else {
                aged(pairs_map(es)[p])
            }),
    decreases es.len(),
{
    if es.len() > 0 {
        let es2 = es.drop_last();
        assert(distinct_names(es2)) by {
            assert forall|i: int, j: int| 0 <= i < j < es2.len() implies #[trigger] es2[i].0 != #[trigger] es2[j].0 by {
                assert(es2[i] == es[i] && es2[j] == es[j]);
            }
        }
        lemma_kept_map(es2, cur);
        let (q, st) = es.last();
        assert forall|p: i32| #[trigger] pairs_map(es2).contains_key(p) implies p != q by {
            lemma_pairs_map_dom(es2, p);
            let i = choose|i: int| 0 <= i < es2.len() && #[trigger] es2[i].0 == p;
            assert(es[i].0 == p);
            assert(es[es.len() - 1].0 == q);
        }
        let k2 = kept(es2, cur);
        let m2 = pairs_map(k2);
        assert(pairs_map(es) == pairs_map(es2).insert(q, st));
        if cur.contains_key(q) {
            let x = (q, fresh(cur[q]));
            assert(kept(es, cur) == k2.push(x));
            assert(k2.push(x).drop_last() =~= k2);
            assert(pairs_map(kept(es, cur)) == m2.insert(q, fresh(cur[q])));
        } else if expires(st) {
            assert(kept(es, cur) == k2);
        } else {
            let x = (q, aged(st));
            assert(kept(es, cur) == k2.push(x));
            assert(k2.push(x).drop_last() =~= k2);
            assert(pairs_map(kept(es, cur)) == m2.insert(q, aged(st)));
        }
    }
}

proof fn lemma_added_map(snap: Seq<PidSample>, old: Map<i32, PidState>)
    requires
        distinct_pids(snap),
    ensures
        forall|p: i32| #[trigger] pairs_map(added(snap, old)).contains_key(p) <==> (sample_map(snap).contains_key(p)
            && !old.contains_key(p)),
        forall|p: i32| #[trigger] pairs_map(added(snap, old)).contains_key(p) ==> pairs_map(added(snap, old))[p]
            == fresh(sample_map(snap)[p]),
    decreases snap.len(),
{
    if snap.len() > 0 {
        let s2 = snap.drop_last();
        assert(sample_pairs(snap).drop_last() =~= sample_pairs(s2));
        assert(sample_pairs(snap).last() == (snap.last().pid, snap.last()));
        assert(distinct_pids(s2)) by {
            assert forall|i: int, j: int| 0 <= i < j < sample_pairs(s2).len() implies #[trigger] sample_pairs(s2)[i].0 != #[trigger] sample_pairs(s2)[j].0 by {
                assert(sample_pairs(s2)[i] == sample_pairs(snap)[i]);
                assert(sample_pairs(s2)[j] == sample_pairs(snap)[j]);
            }
        }
        lemma_added_map(s2, old);
        let q = snap.last().pid;
        assert forall|p: i32| #[trigger] sample_map(s2).contains_key(p) implies p != q by {
            lemma_pairs_map_dom(sample_pairs(s2), p);
            let i = choose|i: int| 0 <= i < sample_pairs(s2).len() && #[trigger] sample_pairs(s2)[i].0 == p;
            assert(sample_pairs(snap)[i].0 == p);
            assert(sample_pairs(snap)[snap.len() - 1].0 == q);
        }
        let a2 = added(s2, old);
        assert(sample_map(snap) == sample_map(s2).insert(q, snap.last()));
        if old.contains_key(q) {
            assert(added(snap, old) == a2);
        } else {
            let x = (q, fresh(snap.last()));
            assert(added(snap, old) == a2.push(x));
            assert(a2.push(x).drop_last() =~= a2);
            assert(pairs_map(added(snap, old)) == pairs_map(a2).insert(q, fresh(snap.last())));
        }
    }
}

/// What every tick does to the followed pids, by pid: after `sample`, the
/// followed pids are exactly the seen ones (fresh: alive, dead count 0,
/// latest counters) and the previously followed ones that have not now been
/// missing for more than `DEAD_LIMIT` ticks (aged: not alive, dead count
/// one higher).
pub proof fn lemma_tick_updates_pids(es: Seq<(i32, PidState)>, snap: Seq<PidSample>)
    requires
        distinct_names(es),
        distinct_pids(snap),
    ensures
        pairs_map(kept(es, sample_map(snap)) + added(snap, pairs_map(es))) == next_pids(
            pairs_map(es),
            sample_map(snap),
        ),
{
    let cur = sample_map(snap);
    let old = pairs_map(es);
    lemma_pairs_map_concat(kept(es, cur), added(snap, old));
    lemma_kept_map(es, cur);
    lemma_added_map(snap, old);
    assert(pairs_map(kept(es, cur)).union_prefer_right(pairs_map(added(snap, old))) =~= next_pids(old, cur));
}

/// The ticks handed out to the visible pids, summed.
pub open spec fn attributed_ticks(a: Seq<PidAttribution>) -> int
    decreases a.len(),
{
    if a.len() == 0 {
        0
    } else {
        attributed_ticks(a.drop_last()) + a.last().ticks
    }
}

/// The render nanoseconds handed out to the visible pids, summed.
pub open spec fn attributed_render(a: Seq<PidAttribution>) -> int
    decreases a.len(),
{
    if a.len() == 0 {
        0
    } else {
        attributed_render(a.drop_last()) + a.last().render_ns
    }
}

/// The shares of a tick add up to its totals: the ticks (render
/// nanoseconds) handed out to the visible pids sum to the tick (render)
/// total that the energy deltas are divided by, so apportioning the energy
/// by these shares hands out exactly the measured energy, no more.
pub proof fn lemma_attributions_add_up(old: Map<i32, PidState>, snap: Seq<PidSample>)
    ensures
        attributed_ticks(snap.map_values(|s: PidSample| attribution_of(old, s))) == tick_sum(old, snap),
        attributed_render(snap.map_values(|s: PidSample| attribution_of(old, s))) == render_sum(old, snap),
    decreases snap.len(),
{
    if snap.len() > 0 {
        lemma_attributions_add_up(old, snap.drop_last());
        assert(snap.map_values(|s: PidSample| attribution_of(old, s)).drop_last() =~= snap.drop_last().map_values(
            |s: PidSample| attribution_of(old, s),
        ));
    }
}

/// The followed pids, by pid, after ticks in which the visible pids were
/// `curs` in order, starting from `m`.
pub open spec fn pids_after(m: Map<i32, PidState>, curs: Seq<Map<i32, PidSample>>) -> Map<i32, PidState>
    decreases curs.len(),
{
    if curs.len() == 0 {
        m
    } else {
        next_pids(pids_after(m, curs.drop_last()), curs.last())
    }
}

/// A followed pid that goes missing stays followed, not alive, with its
/// miss count going up by one per tick, until it has been missing for more
/// than `DEAD_LIMIT` ticks in a row; the tick after that drops it. (A pid
/// last seen in the previous tick has miss count 0, so it is dropped on
/// the 31st tick in a row without it.)
pub proof fn lemma_missing_pid_ages(m: Map<i32, PidState>, curs: Seq<Map<i32, PidSample>>, p: i32, k: int)
    requires
        m.contains_key(p),
        m[p].dead_count <= DEAD_LIMIT,
        forall|j: int| 0 <= j < curs.len() ==> !(#[trigger] curs[j]).contains_key(p),
        0 <= k <= curs.len(),
        m[p].dead_count + k <= DEAD_LIMIT + 1,
    ensures
        m[p].dead_count + k <= DEAD_LIMIT ==> {
            let st = pids_after(m, curs.take(k));
            &&& st.contains_key(p)
            &&& st[p].dead_count == m[p].dead_count + k
            &&& k > 0 ==> !st[p].alive
            &&& st[p].name == m[p].name
            &&& st[p].last_ticks == m[p].last_ticks
            &&& st[p].last_render_ns == m[p].last_render_ns
        },
        m[p].dead_count + k == DEAD_LIMIT + 1 ==> !pids_after(m, curs.take(k)).contains_key(p),
    decreases k,
{
    if k > 0 {
        lemma_missing_pid_ages(m, curs, p, k - 1);
        assert(curs.take(k).drop_last() =~= curs.take(k - 1));
        assert(curs.take(k).last() == curs[k - 1]);
        assert(!curs[k - 1].contains_key(p));
    } else {
        assert(curs.take(0) =~= Seq::<Map<i32, PidSample>>::empty());
    }
}

/// A followed pid that is visible again is alive with its miss count back
/// at 0 and its latest counters.
pub proof fn lemma_seen_pid_revives(m: Map<i32, PidState>, cur: Map<i32, PidSample>, p: i32)
    requires
        cur.contains_key(p),
    ensures
        next_pids(m, cur).contains_key(p),
        next_pids(m, cur)[p] == fresh(cur[p]),
        next_pids(m, cur)[p].alive,
        next_pids(m, cur)[p].dead_count == 0,
{
}

/// The render share of a tick is measured on the render clock alone: for a
/// pid that was already followed with `last_render_ns == a`, a sample with
/// `render_ns == b` gets `b - a` render nanoseconds (0 if the counter went
/// down), whatever its tick counters are; the tick share likewise uses the
/// tick counters alone. The tick's render total grows by exactly that share,
/// and the pid's row reports it.
pub proof fn lemma_render_share(old: Map<i32, PidState>, snap: Seq<PidSample>, s: PidSample)
    requires
        old.contains_key(s.pid),
    ensures
        attribution_of(old, s).render_ns == if s.render_ns >= old[s.pid].last_render_ns {
            s.render_ns - old[s.pid].last_render_ns
        } else {
            0
        },
        attribution_of(old, s).ticks == if s.ticks >= old[s.pid].last_ticks {
            s.ticks - old[s.pid].last_ticks
        } else {
            0
        },
        render_sum(old, snap.push(s)) == render_sum(old, snap) + attribution_of(old, s).render_ns,
        tick_sum(old, snap.push(s)) == tick_sum(old, snap) + attribution_of(old, s).ticks,
        forall|st: PidState| #![trigger row_of((s.pid, st), old, Map::empty().insert(s.pid, s))]
            row_of((s.pid, st), old, Map::empty().insert(s.pid, s)).7 == attribution_of(old, s).render_ns
            && row_of((s.pid, st), old, Map::empty().insert(s.pid, s)).6 == attribution_of(old, s).ticks,
{
    assert(snap.push(s).drop_last() =~= snap);
}

/// What a tick reports of one followed pid: when it is visible, its name
/// and liveness as followed, its current disk and memory figures and its
/// share of the tick (nothing for a pid seen for the first time); when it is
/// not visible, zeros. (In a tick, `cur` holds the visible pids' samples
/// keyed by their pids.)
pub proof fn lemma_row_contents(p: i32, st: PidState, old: Map<i32, PidState>, cur: Map<i32, PidSample>)
    ensures
        cur.contains_key(p) && cur[p].pid == p ==> {
            let s = cur[p];
            let r = row_of((p, st), old, cur);
            &&& r.0 == p && r.1 == st.name@ && r.2 == st.alive
            &&& r.3 == s.disk_read && r.4 == s.disk_write && r.5 == s.rss_bytes
            &&& !old.contains_key(p) ==> r.6 == 0 && r.7 == 0
            &&& old.contains_key(p) ==> r.6 as int == (if s.ticks >= old[p].last_ticks {
                s.ticks - old[p].last_ticks
            } else {
                0
            }) && r.7 as int == (if s.render_ns >= old[p].last_render_ns {
                s.render_ns - old[p].last_render_ns
            } else {
                0
            })
        },
        !cur.contains_key(p) ==> row_of((p, st), old, cur) == (p, st.name@, st.alive, 0u64, 0u64, 0u64, 0u64, 0u64),
{
    if cur.contains_key(p) {
        let s = cur[p];
        let a = attribution_of(old, s);
        assert(row_of((p, st), old, cur) == (p, st.name@, st.alive, s.disk_read, s.disk_write, s.rss_bytes, a.ticks, a.render_ns));
    }
}

/// A pid seen for the first time gets no share of the tick and adds
/// nothing to its totals.
pub proof fn lemma_first_seen_gets_nothing(old: Map<i32, PidState>, snap: Seq<PidSample>, s: PidSample)
    requires
        !old.contains_key(s.pid),
    ensures
        attribution_of(old, s).pid == s.pid,
        attribution_of(old, s).ticks == 0,
        attribution_of(old, s).render_ns == 0,
        tick_sum(old, snap.push(s)) == tick_sum(old, snap),
        render_sum(old, snap.push(s)) == render_sum(old, snap),
{
    assert(snap.push(s).drop_last() =~= snap);
}

/// The visible pids' samples are keyed by their own pids.
pub proof fn lemma_sample_map_keys(snap: Seq<PidSample>)
    ensures
        forall|p: i32| #[trigger] sample_map(snap).contains_key(p) ==> sample_map(snap)[p].pid == p,
    decreases snap.len(),
{
    if snap.len() > 0 {
        lemma_sample_map_keys(snap.drop_last());
        assert(sample_pairs(snap).drop_last() =~= sample_pairs(snap.drop_last()));
        assert(sample_pairs(snap).last() == (snap.last().pid, snap.last()));
        assert(sample_map(snap) == sample_map(snap.drop_last()).insert(snap.last().pid, snap.last()));
    } else {
        assert(sample_map(snap) == Map::<i32, PidSample>::empty());
    }
}

} // verus!
