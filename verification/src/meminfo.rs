//! Memory totals from `/proc/meminfo`.
use vstd::prelude::*;
use crate::text::{
    eq_str, lines, parse_u64, parse_u64_chars, split_lines, split_once, split_once_char,
    split_ws, to_chars, tokens, trim, trim_chars, views,
};

verus! {

/// The kB value of a `Key: value kB` line: the first word after the colon,
/// 0 when it does not parse.
pub open spec fn kb_of(rest: Seq<char>) -> u64 {
    let w = tokens(trim(rest));
    if w.len() > 0 {
        match parse_u64(w[0]) {
            Some(v) => v,
            None => 0,
        }
    } else {
        0
    }
}

/// The value of the last line whose key (before the first `:`) is `key`.
pub open spec fn mem_value(ls: Seq<Seq<char>>, key: Seq<char>) -> Option<u64>
    decreases ls.len(),
{
    if ls.len() == 0 {
        None
    } else {
        match split_once(ls.last(), ':') {
            Some((k, rest)) => if k == key {
                Some(kb_of(rest))
            } else {
                mem_value(ls.drop_last(), key)
            },
            None => mem_value(ls.drop_last(), key),
        }
    }
}

pub open spec fn sat_sub(a: u64, b: u64) -> u64 {
    if a >= b {
        (a - b) as u64
    } else {
        0
    }
}

/// Whole GiB, rounded up, cast to `u32`.
pub open spec fn gib_ceil(kb: u64) -> u32 {
    ((kb / 1048576) + if kb % 1048576 != 0 {
        1int
    } else {
        0int
    }) as u32
}

/// (used kB, total GiB): used is MemTotal less MemAvailable (or MemFree, or
/// nothing); `None` without MemTotal.
pub open spec fn mem_of(text: Seq<char>) -> Option<(u64, u32)> {
    let ls = lines(text);
    match mem_value(ls, "MemTotal"@) {
        None => None,
        Some(total) => {
            let available = match mem_value(ls, "MemAvailable"@) {
                Some(v) => v,
                None => match mem_value(ls, "MemFree"@) {
                    Some(v) => v,
                    None => 0,
                },
            };
            Some((sat_sub(total, available), gib_ceil(total)))
        },
    }
}

/// Returns (used kB, total GiB) from the text of `/proc/meminfo`.
pub fn read_mem_used_total(text: &str) -> (r: Option<(u64, u32)>)
    ensures
        r == mem_of(text@),
{
    let s = to_chars(text);
    let ls = split_lines(&s);
    let mut total: Option<u64> = None;
    let mut avail: Option<u64> = None;
    let mut free: Option<u64> = None;
    let n = ls.len();
    for k in 0..n
        invariant
            n == ls.len(),
            views(ls@) == lines(text@),
            total == mem_value(views(ls@).take(k as int), "MemTotal"@),
            avail == mem_value(views(ls@).take(k as int), "MemAvailable"@),
            free == mem_value(views(ls@).take(k as int), "MemFree"@),
    {
        assert(views(ls@).take(k + 1).drop_last() =~= views(ls@).take(k as int));
        assert(views(ls@).take(k + 1).last() == ls@[k as int]@);
        match split_once_char(&ls[k], ':') {
            Some((key, rest)) => {
                let t = trim_chars(&rest);
                let w = split_ws(&t);
                let kb: u64 = if w.len() > 0 {
                    assert(views(w@)[0] == w@[0]@);
                    match parse_u64_chars(&w[0]) {
                        Some(v) => v,
                        None => 0,
                    }
                } else {
                    0
                };
                if eq_str(&key, "MemTotal") {
                    total = Some(kb);
                }
                if eq_str(&key, "MemAvailable") {
                    avail = Some(kb);
                }
                if eq_str(&key, "MemFree") {
                    free = Some(kb);
                }
            },
            None => {},
        }
    }
    assert(views(ls@).take(n as int) =~= views(ls@));
    let total = match total {
        Some(t) => t,
        None => return None,
    };
    let available = match avail {
        Some(v) => v,
        None => match free {
            Some(v) => v,
            None => 0,
        },
    };
    let gib = total / 1048576 + if total % 1048576 != 0 {
        1
    } else {
        0
    };
    Some((total.saturating_sub(available), gib as u32))
}

} // verus!
