//! Integrated GPU frequency from `/sys/class/drm/card*`.
use vstd::prelude::*;
use crate::sysfs::{opt_string_view, parse_attr, parsed};
use crate::text::{has_char, lex_less, lex_lt, starts_with, starts_with_str, to_chars};

verus! {

/// Frequencies and utilisation of the integrated GPU.
#[derive(Debug, Clone, Copy, PartialEq, Eq)]
pub struct GpuInfo {
    pub freq_mhz: u32,
    pub max_freq_mhz: u32,
    pub util_device: u32,
    pub util_renderer: u32,
    pub util_tiler: u32,
}

pub open spec fn no_gpu() -> GpuInfo {
    GpuInfo { freq_mhz: 0, max_freq_mhz: 0, util_device: 0, util_renderer: 0, util_tiler: 0 }
}

impl Default for GpuInfo {
    fn default() -> (r: Self)
        ensures
            r == no_gpu(),
    {
        GpuInfo { freq_mhz: 0, max_freq_mhz: 0, util_device: 0, util_renderer: 0, util_tiler: 0 }
    }
}

/// An entry of `/sys/class/drm`: its name and whether it has the i915
/// `gt_cur_freq_mhz` file or the xe `gt/gt0/cur_freq` file.
#[derive(Debug, Clone)]
pub struct DrmCard {
    pub name: String,
    pub has_gt_cur_freq: bool,
    pub has_gt0_cur_freq: bool,
}

/// A card (not a connector) that exposes a GPU frequency.
pub open spec fn is_gpu_card(c: DrmCard) -> bool {
    starts_with(c.name@, "card"@) && !c.name@.contains('-') && (c.has_gt_cur_freq
        || c.has_gt0_cur_freq)
}

/// The first entry, in name order, that is a GPU card: its position in `cs`.
pub open spec fn first_card_is(cs: Seq<DrmCard>, i: int) -> bool {
    &&& 0 <= i < cs.len()
    &&& is_gpu_card(cs[i])
    &&& forall|j: int| 0 <= j < cs.len() && is_gpu_card(#[trigger] cs[j]) ==> !lex_lt(cs[j].name@, cs[i].name@)
}

/// Picks the primary iGPU card: among the entries that are GPU cards, the
/// one whose name sorts first.
pub fn pick_card(cards: &Vec<DrmCard>) -> (r: Option<usize>)
    ensures
        match r {
            Some(i) => first_card_is(cards@, i as int),
            None => forall|j: int| 0 <= j < cards@.len() ==> !is_gpu_card(#[trigger] cards@[j]),
        },
{
    let n = cards.len();
    let mut best: Option<usize> = None;
    let mut best_v: Vec<char> = Vec::new();
    for k in 0..n
        invariant
            n == cards.len(),
            match best {
                Some(b) => b < k && best_v@ == cards@[b as int].name@ && is_gpu_card(cards@[b as int])
                    && forall|j: int| 0 <= j < k && is_gpu_card(#[trigger] cards@[j]) ==> !lex_lt(
                    cards@[j].name@,
                    cards@[b as int].name@,
                ),
                None => forall|j: int| 0 <= j < k ==> !is_gpu_card(#[trigger] cards@[j]),
            },
    {
        let c = &cards[k];
        let v = to_chars(c.name.as_str());
        if starts_with_str(&v, "card") && !has_char(&v, '-') && (c.has_gt_cur_freq
            || c.has_gt0_cur_freq) {
            let better = match best {
                None => true,
                Some(_) => lex_less(&v, &best_v),
            };
            if better {
                proof {
                    if let Some(b) = best {
                        assert forall|j: int| 0 <= j < k + 1 && is_gpu_card(#[trigger] cards@[j]) implies !lex_lt(
                            cards@[j].name@,
                            v@,
                        ) by {
                            if j < k {
                                if lex_lt(cards@[j].name@, v@) {
                                    lemma_lex_lt_trans(cards@[j].name@, v@, cards@[b as int].name@);
                                }
                            } else {
                                lemma_lex_lt_irrefl(v@);
                            }
                        }
                    } else {
                        lemma_lex_lt_irrefl(v@);
                    }
                }
                best = Some(k);
                best_v = v;
            } else {
                proof {
                    if let Some(b) = best {
                        lemma_lex_lt_total(v@, cards@[b as int].name@);
                    }
                }
            }
        }
    }
    best
}

/// No name sorts before itself.
proof fn lemma_lex_lt_irrefl(a: Seq<char>)
    ensures
        !lex_lt(a, a),
    decreases a.len(),
{
    if a.len() > 0 {
        lemma_lex_lt_irrefl(a.drop_first());
    }
}

/// Name order is transitive: `a < b` and `b < c` give `a < c`.
proof fn lemma_lex_lt_trans(a: Seq<char>, b: Seq<char>, c: Seq<char>)
    requires
        lex_lt(a, b),
        lex_lt(b, c),
    ensures
        lex_lt(a, c),
    decreases a.len(),
{
    if a.len() > 0 && b.len() > 0 && c.len() > 0 && a[0] == b[0] && b[0] == c[0] {
        lemma_lex_lt_trans(a.drop_first(), b.drop_first(), c.drop_first());
    }
}

/// Of two different names, one sorts before the other.
proof fn lemma_lex_lt_total(a: Seq<char>, b: Seq<char>)
    ensures
        !lex_lt(a, b) ==> (a == b || lex_lt(b, a)),
    decreases a.len(),
{
    if a.len() > 0 && b.len() > 0 {
        if a[0] == b[0] {
            lemma_lex_lt_total(a.drop_first(), b.drop_first());
            if a.drop_first() == b.drop_first() {
                assert(a =~= seq![a[0]] + a.drop_first());
                assert(b =~= seq![b[0]] + b.drop_first());
            }
        } else {
            assert(a[0] < b[0] || b[0] < a[0]);
        }
    } else if a.len() == 0 && b.len() == 0 {
        assert(a =~= b);
    }
}

/// The raw contents of a card's frequency files (`None` where a file could
/// not be read): i915's flat files and xe's nested ones.
#[derive(Debug, Clone)]
pub struct GpuFiles {
    pub gt_cur_freq_mhz: Option<String>,
    pub gt0_cur_freq: Option<String>,
    pub gt_max_freq_mhz: Option<String>,
    pub gt_rp0_freq_mhz: Option<String>,
    pub gt0_max_freq: Option<String>,
}

pub open spec fn attr_u32(raw: Option<String>) -> Option<u32> {
    parsed::<u32>(opt_string_view(raw))
}

pub open spec fn first_of(a: Option<u32>, b: Option<u32>) -> Option<u32> {
    match a {
        Some(x) => Some(x),
        None => b,
    }
}

pub open spec fn or0(a: Option<u32>) -> u32 {
    match a {
        Some(x) => x,
        None => 0,
    }
}

/// The GPU info that a card's files give; per-engine utilisation is not
/// read and stays 0.
pub open spec fn gpu_of(card: Option<GpuFiles>) -> GpuInfo {
    match card {
        None => no_gpu(),
        Some(f) => GpuInfo {
            freq_mhz: or0(first_of(attr_u32(f.gt_cur_freq_mhz), attr_u32(f.gt0_cur_freq))),
            max_freq_mhz: or0(
                first_of(
                    attr_u32(f.gt_max_freq_mhz),
                    first_of(attr_u32(f.gt_rp0_freq_mhz), attr_u32(f.gt0_max_freq)),
                ),
            ),
            util_device: 0,
            util_renderer: 0,
            util_tiler: 0,
        },
    }
}

/// Reads the GPU frequencies of the picked card (`None` when there is none).
pub fn read(card: Option<&GpuFiles>) -> (r: GpuInfo)
    ensures
        r == gpu_of(
            match card {
                Some(f) => Some(*f),
                None => None,
            },
        ),
{
    let f = match card {
        Some(f) => f,
        None => return GpuInfo { freq_mhz: 0, max_freq_mhz: 0, util_device: 0, util_renderer: 0, util_tiler: 0 },
    };
    let freq_mhz = match parse_attr::<u32>(&f.gt_cur_freq_mhz) {
        Some(v) => v,
        None => match parse_attr::<u32>(&f.gt0_cur_freq) {
            Some(v) => v,
            None => 0,
        },
    };
    let max_freq_mhz = match parse_attr::<u32>(&f.gt_max_freq_mhz) {
        Some(v) => v,
        None => match parse_attr::<u32>(&f.gt_rp0_freq_mhz) {
            Some(v) => v,
            None => match parse_attr::<u32>(&f.gt0_max_freq) {
                Some(v) => v,
                None => 0,
            },
        },
    };
    GpuInfo { freq_mhz, max_freq_mhz, util_device: 0, util_renderer: 0, util_tiler: 0 }
}

} // verus!
