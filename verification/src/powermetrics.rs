//! Counter arithmetic for network and disk rates, and the parser of the
//! per-process network listing (`nettop -P -n -L 1 -x` CSV).
use vstd::prelude::*;
use std::collections::HashMap;
use crate::table::{lookup, NameTable};
use crate::text::{
    all_digits, digits_only, eq_str, lines, parse_i32, parse_i32_chars, parse_u64,
    parse_u64_chars, pieces, rsplit_once, rsplit_once_char, split_char, split_lines, to_chars,
    trim, trim_chars, views,
};

verus! {

broadcast use vstd::std_specs::hash::group_hash_axioms;

pub open spec fn sat_sub(a: u64, b: u64) -> u64 {
    if a >= b {
        (a - b) as u64
    } else {
        0
    }
}

/// Bytes (in, out) moved on the interfaces of `cur` that pass the filter and
/// were present before, as unbounded sums.
pub open spec fn net_delta_sum(
    prev: Map<Seq<char>, (u64, u64)>,
    cur: Seq<(Seq<char>, (u64, u64))>,
    only: Option<Seq<char>>,
) -> (int, int)
    decreases cur.len(),
{
    if cur.len() == 0 {
        (0, 0)
    } else {
        let (a, b) = net_delta_sum(prev, cur.drop_last(), only);
        let (k, (ci, co)) = cur.last();
        let passes = match only {
            Some(n) => k == n,
            None => true,
        };
        match lookup(prev, k) {
            Some((pi, po)) => if passes {
                (a + sat_sub(ci, pi), b + sat_sub(co, po))
            } else {
                (a, b)
            },
            None => (a, b),
        }
    }
}

proof fn lemma_net_delta_grows(
    prev: Map<Seq<char>, (u64, u64)>,
    cur: Seq<(Seq<char>, (u64, u64))>,
    only: Option<Seq<char>>,
    k: int,
)
    requires
        0 <= k <= cur.len(),
    ensures
        net_delta_sum(prev, cur.take(k), only).0 <= net_delta_sum(prev, cur, only).0,
        net_delta_sum(prev, cur.take(k), only).1 <= net_delta_sum(prev, cur, only).1,
    decreases cur.len() - k,
{
    if k < cur.len() {
        lemma_net_delta_grows(prev, cur, only, k + 1);
        assert(cur.take(k + 1).drop_last() =~= cur.take(k));
    } else {
        assert(cur.take(k) =~= cur);
    }
}

/// Bytes (in, out) moved between two counter snapshots, over all interfaces
/// (`iface` is `None`) or one; nothing when there is no previous snapshot.
/// `None` when a total exceeds `u64::MAX`.
pub fn compute_net_deltas(prev: &NameTable<(u64, u64)>, cur: &NameTable<(u64, u64)>, iface: Option<&str>) -> (r:
    Option<(u64, u64)>)
    requires
        prev.wf(),
    ensures
        prev.pairs().len() == 0 ==> r == Some((0u64, 0u64)),
        prev.pairs().len() > 0 ==> match r {
            Some((a, b)) => net_delta_sum(
                prev.map(),
                cur.pairs(),
                match iface {
                    Some(s) => Some(s@),
                    None => None,
                },
            ) == (a as int, b as int),
            None => {
                let (a, b) = net_delta_sum(
                    prev.map(),
                    cur.pairs(),
                    match iface {
                        Some(s) => Some(s@),
                        None => None,
                    },
                );
                a > u64::MAX || b > u64::MAX
            },
        },
{
    if prev.len() == 0 {
        return Some((0, 0));
    }
    let ghost only = match iface {
        Some(s) => Some(s@),
        None => None,
    };
    let want = match iface {
        Some(s) => Some(to_chars(s)),
        None => None,
    };
    let mut a: u64 = 0;
    let mut b: u64 = 0;
    let n = cur.len();
    for i in 0..n
        invariant
            n == cur.pairs().len(),
            prev.wf(),
            only == match iface {
                Some(s) => Some(s@),
                None => None,
            },
            match want {
                Some(w) => only == Some(w@),
                None => only is None,
            },
            net_delta_sum(prev.map(), cur.pairs().take(i as int), only) == (a as int, b as int),
    {
        assert(cur.pairs().take(i + 1).drop_last() =~= cur.pairs().take(i as int));
        assert(cur.pairs().take(i + 1).last() == cur.pairs()[i as int]);
        let (k, (ci, co)) = cur.entry(i);
        let key = to_chars(k.as_str());
        let passes = match &want {
            Some(w) => crate::text::vec_eq(&key, w),
            None => true,
        };
        if passes {
            match prev.get(&key) {
                Some((pi, po)) => {
                    let di = ci.saturating_sub(pi);
                    let d_o = co.saturating_sub(po);
                    assert(net_delta_sum(prev.map(), cur.pairs().take(i + 1), only) == (a + di, b + d_o));
                    if a > u64::MAX - di || b > u64::MAX - d_o {
                        proof {
                            lemma_net_delta_grows(prev.map(), cur.pairs(), only, i as int + 1);
                        }
                        return None;
                    }
                    a = a + di;
                    b = b + d_o;
                },
                None => {},
            }
        }
    }
    assert(cur.pairs().take(n as int) =~= cur.pairs());
    Some((a, b))
}

/// Bytes (read, written) between two disk counter snapshots, saturating at 0.
pub fn compute_disk_deltas(prev: (u64, u64), cur: (u64, u64)) -> (r: (u64, u64))
    ensures
        r == (sat_sub(cur.0, prev.0), sat_sub(cur.1, prev.1)),
{
    (cur.0.saturating_sub(prev.0), cur.1.saturating_sub(prev.1))
}

/// The counters of the link-layer entries: `lo0` and entries with both
/// counters at zero are skipped; for a repeated name the largest counts win.
pub open spec fn link_counters_of(es: Seq<(String, u32, u32)>) -> Map<Seq<char>, (u64, u64)>
    decreases es.len(),
{
    if es.len() == 0 {
        Map::empty()
    } else {
        let m = link_counters_of(es.drop_last());
        let (name, ib, ob) = es.last();
        if name@ == "lo0"@ || (ib == 0 && ob == 0) {
            m
        } else {
            let (pi, po) = match lookup(m, name@) {
                Some(v) => v,
                None => (0u64, 0u64),
            };
            m.insert(
                name@,
                (
                    if (ib as u64) > pi {
                        ib as u64
                    } else {
                        pi
                    },
                    if (ob as u64) > po {
                        ob as u64
                    } else {
                        po
                    },
                ),
            )
        }
    }
}

/// Collects per-interface byte counters from link-layer entries
/// (name, received, sent).
pub fn collect_link_counters(entries: &Vec<(String, u32, u32)>) -> (r: NameTable<(u64, u64)>)
    ensures
        r.wf(),
        r.map() == link_counters_of(entries@),
{
    let mut out: NameTable<(u64, u64)> = NameTable::new();
    let n = entries.len();
    for k in 0..n
        invariant
            n == entries.len(),
            out.wf(),
            out.map() == link_counters_of(entries@.take(k as int)),
    {
        assert(entries@.take(k + 1).drop_last() =~= entries@.take(k as int));
        assert(entries@.take(k + 1).last() == entries@[k as int]);
        let (name, ib, ob) = (&entries[k].0, entries[k].1, entries[k].2);
        let nm = to_chars(name.as_str());
        if !(eq_str(&nm, "lo0") || (ib == 0 && ob == 0)) {
            let (pi, po) = match out.get(&nm) {
                Some(v) => v,
                None => (0, 0),
            };
            let i = if (ib as u64) > pi {
                ib as u64
            } else {
                pi
            };
            let o = if (ob as u64) > po {
                ob as u64
            } else {
                po
            };
            out.insert(name.clone(), (i, o));
        }
    }
    assert(entries@.take(n as int) =~= entries@);
    out
}

/// Sums the (read, written) statistics of block storage drivers; a missing
/// statistic counts as 0 and each value is reinterpreted as `u64`. `None`
/// when a total exceeds `u64::MAX`.
pub open spec fn disk_stat_sum(es: Seq<(Option<i64>, Option<i64>)>) -> (int, int)
    decreases es.len(),
{
    if es.len() == 0 {
        (0, 0)
    } else {
        let (r, w) = disk_stat_sum(es.drop_last());
        let (a, b) = es.last();
        (
            r + (match a {
                Some(x) => x,
                None => 0,
            }) as u64,
            w + (match b {
                Some(x) => x,
                None => 0,
            }) as u64,
        )
    }
}

proof fn lemma_disk_stat_grows(es: Seq<(Option<i64>, Option<i64>)>, k: int)
    requires
        0 <= k <= es.len(),
    ensures
        disk_stat_sum(es.take(k)).0 <= disk_stat_sum(es).0,
        disk_stat_sum(es.take(k)).1 <= disk_stat_sum(es).1,
    decreases es.len() - k,
{
    if k < es.len() {
        lemma_disk_stat_grows(es, k + 1);
        assert(es.take(k + 1).drop_last() =~= es.take(k));
    } else {
        assert(es.take(k) =~= es);
    }
}

/// Total bytes (read, written) over the drivers' statistics.
pub fn sum_disk_statistics(entries: &Vec<(Option<i64>, Option<i64>)>) -> (r: Option<(u64, u64)>)
    ensures
        match r {
            Some((a, b)) => disk_stat_sum(entries@) == (a as int, b as int),
            None => disk_stat_sum(entries@).0 > u64::MAX || disk_stat_sum(entries@).1 > u64::MAX,
        },
{
    let mut tr: u64 = 0;
    let mut tw: u64 = 0;
    let n = entries.len();
    for k in 0..n
        invariant
            n == entries.len(),
            disk_stat_sum(entries@.take(k as int)) == (tr as int, tw as int),
    {
        assert(entries@.take(k + 1).drop_last() =~= entries@.take(k as int));
        assert(entries@.take(k + 1).last() == entries@[k as int]);
        let a = match entries[k].0 {
            Some(x) => x,
            None => 0,
        } as u64;
        let b = match entries[k].1 {
            Some(x) => x,
            None => 0,
        } as u64;
        if tr > u64::MAX - a || tw > u64::MAX - b {
            proof {
                lemma_disk_stat_grows(entries@, k as int + 1);
            }
            return None;
        }
        tr = tr + a;
        tw = tw + b;
    }
    assert(entries@.take(n as int) =~= entries@);
    Some((tr, tw))
}

/// What one CSV line of the per-process listing contributes:
/// `(pid, bytes in, bytes out)` when it has at least 7 columns, its second
/// column is `name.pid` with a non-empty name and an all-digit positive
/// pid, and it moved some bytes.
pub open spec fn nettop_line(l: Seq<char>) -> Option<(i32, u64, u64)> {
    let cols = pieces(l, ',');
    if cols.len() < 7 {
        None
    } else {
        match rsplit_once(trim(cols[1]), '.') {
            None => None,
            Some((name, suffix)) => if name.len() == 0 || !all_digits(suffix) {
                None
            } else {
                match parse_i32(suffix) {
                    Some(pid) => if pid > 0 {
                        let rx = match parse_u64(trim(cols[4])) {
                            Some(v) => v,
                            None => 0,
                        };
                        let tx = match parse_u64(trim(cols[5])) {
                            Some(v) => v,
                            None => 0,
                        };
                        if rx > 0 || tx > 0 {
                            Some((pid, rx, tx))
                        } else {
                            None
                        }
                    } else {
                        None
                    },
                    None => None,
                }
            },
        }
    }
}

/// Per-pid byte totals over the given lines, as unbounded sums.
pub open spec fn nettop_sums(ls: Seq<Seq<char>>) -> Map<i32, (int, int)>
    decreases ls.len(),
{
    if ls.len() == 0 {
        Map::empty()
    } else {
        let m = nettop_sums(ls.drop_last());
        match nettop_line(ls.last()) {
            Some((pid, rx, tx)) => {
                let (a, b) = if m.contains_key(pid) {
                    m[pid]
                } else {
                    (0, 0)
                };
                m.insert(pid, (a + rx, b + tx))
            },
            None => m,
        }
    }
}

/// The lines after the header line.
pub open spec fn past_first(ls: Seq<Seq<char>>) -> Seq<Seq<char>> {
    if ls.len() == 0 {
        Seq::empty()
    } else {
        ls.skip(1)
    }
}

pub open spec fn fits(m: Map<i32, (int, int)>) -> bool {
    forall|p: i32| #[trigger] m.contains_key(p) ==> m[p].0 <= u64::MAX && m[p].1 <= u64::MAX
}

proof fn lemma_nettop_sums_grow(ls: Seq<Seq<char>>, k: int)
    requires
        0 <= k <= ls.len(),
        fits(nettop_sums(ls)),
    ensures
        fits(nettop_sums(ls.take(k))),
        forall|p: i32| #[trigger] nettop_sums(ls.take(k)).contains_key(p) ==> nettop_sums(ls).contains_key(p)
            && 0 <= nettop_sums(ls.take(k))[p].0 <= nettop_sums(ls)[p].0
            && 0 <= nettop_sums(ls.take(k))[p].1 <= nettop_sums(ls)[p].1,
    decreases ls.len() - k,
{
    if k < ls.len() {
        lemma_nettop_sums_grow(ls, k + 1);
        assert(ls.take(k + 1).drop_last() =~= ls.take(k));
        lemma_nettop_sums_step(ls.take(k + 1));
        lemma_nettop_sums_nonneg(ls.take(k));
    } else {
        assert(ls.take(k) =~= ls);
        lemma_nettop_sums_nonneg(ls);
    }
}

proof fn lemma_nettop_sums_step(ls: Seq<Seq<char>>)
    requires
        ls.len() > 0,
    ensures
        forall|p: i32| #[trigger] nettop_sums(ls.drop_last()).contains_key(p) ==> nettop_sums(ls).contains_key(p)
            && nettop_sums(ls.drop_last())[p].0 <= nettop_sums(ls)[p].0
            && nettop_sums(ls.drop_last())[p].1 <= nettop_sums(ls)[p].1,
{
}

proof fn lemma_nettop_sums_nonneg(ls: Seq<Seq<char>>)
    ensures
        forall|p: i32| #[trigger] nettop_sums(ls).contains_key(p) ==> 0 <= nettop_sums(ls)[p].0 && 0
            <= nettop_sums(ls)[p].1,
    decreases ls.len(),
{
    if ls.len() > 0 {
        lemma_nettop_sums_nonneg(ls.drop_last());
        let m = nettop_sums(ls.drop_last());
        match nettop_line(ls.last()) {
            Some((pid, rx, tx)) => {
                assert forall|p: i32| #[trigger] nettop_sums(ls).contains_key(p) implies 0 <= nettop_sums(ls)[p].0 && 0
                    <= nettop_sums(ls)[p].1 by {
                    if p != pid {
                        assert(m.contains_key(p));
                    }
                }
            },
            None => {},
        }
    }
}

pub open spec fn as_counts(m: Map<i32, (int, int)>) -> Map<i32, (u64, u64)> {
    Map::new(|p: i32| m.contains_key(p), |p: i32| (m[p].0 as u64, m[p].1 as u64))
}

fn nettop_line_of(l: &Vec<char>) -> (r: Option<(i32, u64, u64)>)
    ensures
        r == nettop_line(l@),
{
    let cols = split_char(l, ',');
    if cols.len() < 7 {
        return None;
    }
    assert(views(cols@)[1] == cols@[1]@);
    assert(views(cols@)[4] == cols@[4]@);
    assert(views(cols@)[5] == cols@[5]@);
    let np = trim_chars(&cols[1]);
    let (name, suffix) = match rsplit_once_char(&np, '.') {
        Some(p) => p,
        None => return None,
    };
    if name.len() == 0 || !digits_only(&suffix) {
        return None;
    }
    let pid = match parse_i32_chars(&suffix) {
        Some(p) => p,
        None => return None,
    };
    if pid <= 0 {
        return None;
    }
    let rx = match parse_u64_chars(&trim_chars(&cols[4])) {
        Some(v) => v,
        None => 0,
    };
    let tx = match parse_u64_chars(&trim_chars(&cols[5])) {
        Some(v) => v,
        None => 0,
    };
    if rx > 0 || tx > 0 {
        Some((pid, rx, tx))
    } else {
        None
    }
}

/// Per-process cumulative network bytes (rx, tx) from the CSV listing
/// `time,name.pid,iface,state,bytes_in,bytes_out,...` (first line is a
/// header). `None` when a per-pid total exceeds `u64::MAX`.
pub fn read_proc_net_counters(output: &str) -> (r: Option<HashMap<i32, (u64, u64)>>)
    ensures
        match r {
            Some(m) => fits(nettop_sums(past_first(lines(output@)))) && m@ == as_counts(
                nettop_sums(past_first(lines(output@))),
            ),
            None => !fits(nettop_sums(past_first(lines(output@)))),
        },
{
    let s = to_chars(output);
    let ls = split_lines(&s);
    let mut result: HashMap<i32, (u64, u64)> = HashMap::new();
    let n = ls.len();
    if n == 0 {
        assert(as_counts(Map::<i32, (int, int)>::empty()) =~= Map::<i32, (u64, u64)>::empty());
        return Some(result);
    }
    let ghost body = views(ls@).skip(1);
    for k in 1..n
        invariant
            n == ls.len(),
            n >= 1,
            body == views(ls@).skip(1),
            body == past_first(lines(output@)),
            fits(nettop_sums(body.take(k - 1))),
            result@ == as_counts(nettop_sums(body.take(k - 1))),
    {
        let ghost pre = body.take(k - 1);
        assert(body.take(k as int).drop_last() =~= pre);
        assert(body.take(k as int).last() == ls@[k as int]@);
        proof {
            lemma_nettop_sums_nonneg(pre);
        }
        match nettop_line_of(&ls[k]) {
            Some((pid, rx, tx)) => {
                let (a, b) = match result.get(&pid) {
                    Some(v) => *v,
                    None => (0, 0),
                };
                if a > u64::MAX - rx || b > u64::MAX - tx {
                    proof {
                        assert(!fits(nettop_sums(body.take(k as int)))) by {
                            assert(nettop_sums(body.take(k as int)).contains_key(pid));
                        }
                        if fits(nettop_sums(body)) {
                            lemma_nettop_sums_grow(body, k as int);
                        }
                        assert(body.len() == n - 1);
                        assert(body.take(n - 1) =~= body);
                    }
                    return None;
                }
                result.insert(pid, (a + rx, b + tx));
                assert(result@ =~= as_counts(nettop_sums(body.take(k as int))));
            },
            None => {},
        }
    }
    assert(body.take(n - 1) =~= body);
    Some(result)
}

} // verus!
