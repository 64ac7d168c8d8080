//! The display and keyboard backlights, and the panel geometry from the
//! EDID.
use vstd::prelude::*;
use crate::sysfs::{content_or_empty, opt_string_view, parse_attr, parsed, read_string_or_empty};
use crate::text::{eq_str, has_char, lex_less, lex_lt, to_chars};

verus! {

/// The name that sorts first.
pub open spec fn least_name(ns: Seq<Seq<char>>) -> Seq<char>
    decreases ns.len(),
{
    if ns.len() <= 1 {
        ns[0]
    } else {
        let m = least_name(ns.drop_last());
        if lex_lt(ns.last(), m) {
            ns.last()
        } else {
            m
        }
    }
}

pub open spec fn string_views(v: Seq<String>) -> Seq<Seq<char>> {
    v.map_values(|s: String| s@)
}

/// The backlight to use among the entries of `/sys/class/backlight`:
/// `intel_backlight` when present, else the one that sorts first.
pub open spec fn backlight_of(ns: Seq<Seq<char>>) -> Option<Seq<char>> {
    if ns.contains("intel_backlight"@) {
        Some("intel_backlight"@)
    } else if ns.len() == 0 {
        None
    } else {
        Some(least_name(ns))
    }
}

/// Picks the backlight device among the entry names of `/sys/class/backlight`.
pub fn pick_backlight(names: &Vec<String>) -> (r: Option<String>)
    ensures
        match r {
            Some(n) => backlight_of(string_views(names@)) == Some(n@),
            None => backlight_of(string_views(names@)) is None,
        },
{
    let n = names.len();
    let ghost ns = string_views(names@);
    for k in 0..n
        invariant
            n == names.len(),
            ns == string_views(names@),
            forall|i: int| 0 <= i < k ==> #[trigger] ns[i] != "intel_backlight"@,
    {
        let v = to_chars(names[k].as_str());
        if eq_str(&v, "intel_backlight") {
            assert(ns[k as int] == "intel_backlight"@);
            assert(ns.contains("intel_backlight"@));
            return Some(names[k].clone());
        }
    }
    assert(!ns.contains("intel_backlight"@));
    if n == 0 {
        return None;
    }
    let mut best: usize = 0;
    let mut best_v = to_chars(names[0].as_str());
    assert(ns.take(1).len() == 1);
    for k in 1..n
        invariant
            n == names.len(),
            n >= 1,
            ns == string_views(names@),
            best < n,
            best_v@ == ns[best as int],
            ns[best as int] == least_name(ns.take(k as int)),
    {
        assert(ns.take(k + 1).drop_last() =~= ns.take(k as int));
        assert(ns.take(k + 1).last() == ns[k as int]);
        let v = to_chars(names[k].as_str());
        if lex_less(&v, &best_v) {
            best = k;
            best_v = v;
        }
    }
    assert(ns.take(n as int) =~= ns);
    Some(names[best].clone())
}

/// A DRM connector: its entry name and the raw contents of its `status` and
/// `edid` files (`None` where a file could not be read).
#[derive(Debug, Clone)]
pub struct DrmConnector {
    pub name: String,
    pub status: Option<String>,
    pub edid: Option<Vec<u8>>,
}

/// Active pixels and physical size (mm) from the first detailed timing
/// block of an EDID.
#[derive(Debug, Clone, Copy, PartialEq, Eq)]
pub struct EdidGeometry {
    pub h_active: u32,
    pub v_active: u32,
    pub w_mm: u32,
    pub h_mm: u32,
}

/// The geometry in the detailed timing block at offset 54.
pub open spec fn geometry_of(e: Seq<u8>) -> EdidGeometry {
    EdidGeometry {
        h_active: (((e[58] as u32) & 0xF0u32) << 4u32) | (e[56] as u32),
        v_active: (((e[61] as u32) & 0xF0u32) << 4u32) | (e[59] as u32),
        w_mm: (((e[68] as u32) & 0xF0u32) << 4u32) | (e[66] as u32),
        h_mm: (((e[68] as u32) & 0x0Fu32) << 8u32) | (e[67] as u32),
    }
}

/// What the EDID search finds.
#[derive(Debug, Clone, Copy, PartialEq, Eq)]
pub enum EdidPick {
    /// The geometry of the first connected output with a full EDID.
    Found(EdidGeometry),
    /// No connected output with an EDID of at least 68 bytes.
    NotFound,
    /// The EDID of a connected output could not be read: the search stops.
    Unreadable,
    /// The first connected output has an EDID of 68 to 71 bytes, shorter
    /// than the timing block it is read from.
    Truncated,
}

/// The outcome of searching the connectors in order: skip names without a
/// `-`, outputs not `connected` and EDIDs under 68 bytes.
pub open spec fn edid_pick_of(cs: Seq<DrmConnector>) -> EdidPick
    decreases cs.len(),
{
    if cs.len() == 0 {
        EdidPick::NotFound
    } else {
        let c = cs[0];
        if !c.name@.contains('-') || content_or_empty(opt_string_view(c.status)) != "connected"@ {
            edid_pick_of(cs.drop_first())
        } else {
            match c.edid {
                None => EdidPick::Unreadable,
                Some(e) => if e@.len() < 68 {
                    edid_pick_of(cs.drop_first())
                } else if e@.len() < 72 {
                    EdidPick::Truncated
                } else {
                    EdidPick::Found(geometry_of(e@))
                },
            }
        }
    }
}

fn geometry(e: &Vec<u8>) -> (r: EdidGeometry)
    requires
        e@.len() >= 72,
    ensures
        r == geometry_of(e@),
{
    EdidGeometry {
        h_active: (((e[58] as u32) & 0xF0u32) << 4u32) | (e[56] as u32),
        v_active: (((e[61] as u32) & 0xF0u32) << 4u32) | (e[59] as u32),
        w_mm: (((e[68] as u32) & 0xF0u32) << 4u32) | (e[66] as u32),
        h_mm: (((e[68] as u32) & 0x0Fu32) << 8u32) | (e[67] as u32),
    }
}

/// Finds the panel geometry in the EDID of the first connected output.
pub fn read_edid_geometry(conns: &Vec<DrmConnector>) -> (r: EdidPick)
    ensures
        r == edid_pick_of(conns@),
{
    let n = conns.len();
    let mut k: usize = 0;
    assert(conns@.skip(0) =~= conns@);
    while k < n
        invariant
            n == conns.len(),
            k <= n,
            edid_pick_of(conns@) == edid_pick_of(conns@.skip(k as int)),
        decreases n - k,
    {
        assert(conns@.skip(k as int)[0] == conns@[k as int]);
        assert(conns@.skip(k as int).drop_first() =~= conns@.skip(k + 1));
        let c = &conns[k];
        let name = to_chars(c.name.as_str());
        let status = read_string_or_empty(&c.status);
        if has_char(&name, '-') && eq_str(&status, "connected") {
            match &c.edid {
                None => return EdidPick::Unreadable,
                Some(e) => {
                    if e.len() >= 72 {
                        return EdidPick::Found(geometry(e));
                    } else if e.len() >= 68 {
                        return EdidPick::Truncated;
                    }
                },
            }
        }
        k += 1;
    }
    assert(conns@.skip(n as int) =~= Seq::<DrmConnector>::empty());
    EdidPick::NotFound
}

/// Whether some DRM entry reports `connected` (entries given as the raw
/// contents of their `status` files, `None` where unreadable).
pub open spec fn any_connected(ss: Seq<Option<String>>) -> bool {
    exists|i: int|
        0 <= i < ss.len() && (#[trigger] ss[i]) is Some && content_or_empty(
            opt_string_view(ss[i]),
        ) == "connected"@
}

/// The refresh rate (Hz) of the primary panel: 60 when some DRM entry
/// reports `connected`, else 0.
pub open spec fn refresh_of(ss: Seq<Option<String>>) -> u32 {
    if any_connected(ss) {
        60
    } else {
        0
    }
}

/// The primary panel's refresh rate from the raw contents of the DRM
/// entries' `status` files.
pub fn read_primary_refresh_hz(statuses: &Vec<Option<String>>) -> (r: u32)
    ensures
        r == refresh_of(statuses@),
{
    let n = statuses.len();
    for k in 0..n
        invariant
            n == statuses.len(),
            forall|i: int|
                0 <= i < k ==> !((#[trigger] statuses@[i]) is Some && content_or_empty(
                    opt_string_view(statuses@[i]),
                ) == "connected"@),
    {
        if statuses[k].is_some() {
            let s = read_string_or_empty(&statuses[k]);
            if eq_str(&s, "connected") {
                return 60;
            }
        }
    }
    0
}

/// The raw contents of a LED or backlight's `brightness` and
/// `max_brightness` files (`None` where unreadable).
#[derive(Debug, Clone)]
pub struct LevelFiles {
    pub brightness: Option<String>,
    pub max_brightness: Option<String>,
}

/// A brightness setting and its maximum.
#[derive(Debug, Clone, Copy, PartialEq, Eq)]
pub struct Level {
    pub cur: i64,
    pub max: i64,
}

/// The level the files give: an unreadable or unparsable `brightness`
/// counts as 0, an unreadable or unparsable `max_brightness` as 1.
pub open spec fn level_of(f: LevelFiles) -> Level {
    Level {
        cur: match parsed::<i64>(opt_string_view(f.brightness)) {
            Some(v) => v,
            None => 0,
        },
        max: match parsed::<i64>(opt_string_view(f.max_brightness)) {
            Some(v) => v,
            None => 1,
        },
    }
}

pub fn read_level(f: &LevelFiles) -> (r: Level)
    ensures
        r == level_of(*f),
{
    let cur: i64 = match parse_attr::<i64>(&f.brightness) {
        Some(v) => v,
        None => 0,
    };
    let max: i64 = match parse_attr::<i64>(&f.max_brightness) {
        Some(v) => v,
        None => 1,
    };
    Level { cur, max }
}

/// What is read of the display: the backlight level, the panel geometry
/// (when a connected output has a full EDID) and the refresh rate.
#[derive(Debug, Clone, Copy, PartialEq, Eq)]
pub struct DisplayReading {
    pub level: Level,
    pub geometry: Option<EdidGeometry>,
    pub refresh_hz: u32,
}

pub open spec fn found_geometry(p: EdidPick) -> Option<EdidGeometry> {
    match p {
        EdidPick::Found(g) => Some(g),
        _ => None,
    }
}

/// Reads the display from the picked backlight's files (`None` when there
/// is no backlight: nothing else is read then), the DRM connectors and
/// the raw `status` contents of the DRM entries.
pub fn read_display(
    backlight: Option<&LevelFiles>,
    conns: &Vec<DrmConnector>,
    statuses: &Vec<Option<String>>,
) -> (r: Option<DisplayReading>)
    requires
        backlight is Some ==> !(edid_pick_of(conns@) is Truncated),
    ensures
        match backlight {
            None => r is None,
            Some(f) => r == Some(
                DisplayReading {
                    level: level_of(*f),
                    geometry: found_geometry(edid_pick_of(conns@)),
                    refresh_hz: refresh_of(statuses@),
                },
            ),
        },
{
    match backlight {
        None => None,
        Some(f) => {
            let level = read_level(f);
            let geometry = match read_edid_geometry(conns) {
                EdidPick::Found(g) => Some(g),
                _ => None,
            };
            let refresh_hz = read_primary_refresh_hz(statuses);
            Some(DisplayReading { level, geometry, refresh_hz })
        },
    }
}

/// A keyboard backlight LED candidate: whether its directory exists, and
/// its level files.
#[derive(Debug, Clone)]
pub struct LedCandidate {
    pub exists: bool,
    pub files: LevelFiles,
}

/// The level of the first candidate whose directory exists.
pub open spec fn keyboard_of(cs: Seq<LedCandidate>) -> Option<Level>
    decreases cs.len(),
{
    if cs.len() == 0 {
        None
    } else if cs[0].exists {
        Some(level_of(cs[0].files))
    } else {
        keyboard_of(cs.drop_first())
    }
}

/// Reads the keyboard backlight from the candidate LEDs, in order.
pub fn read_keyboard(cands: &Vec<LedCandidate>) -> (r: Option<Level>)
    ensures
        r == keyboard_of(cands@),
{
    let n = cands.len();
    let mut k: usize = 0;
    assert(cands@.skip(0) =~= cands@);
    while k < n
        invariant
            n == cands.len(),
            k <= n,
            keyboard_of(cands@) == keyboard_of(cands@.skip(k as int)),
        decreases n - k,
    {
        assert(cands@.skip(k as int)[0] == cands@[k as int]);
        assert(cands@.skip(k as int).drop_first() =~= cands@.skip(k + 1));
        if cands[k].exists {
            return Some(read_level(&cands[k].files));
        }
        k += 1;
    }
    assert(cands@.skip(n as int) =~= Seq::<LedCandidate>::empty());
    None
}

/// The geometry fields are 12-bit numbers: a high nibble times 256 plus a
/// byte. The active widths take the high nibbles of bytes 58 and 61 (their
/// low nibbles are blanking bits), the width in mm the high nibble of byte
/// 68 and the height in mm its low nibble.
pub proof fn lemma_geometry_fields(e: Seq<u8>)
    requires
        e.len() >= 72,
    ensures
        geometry_of(e).h_active == (e[58] / 16) as int * 256 + e[56],
        geometry_of(e).v_active == (e[61] / 16) as int * 256 + e[59],
        geometry_of(e).w_mm == (e[68] / 16) as int * 256 + e[66],
        geometry_of(e).h_mm == (e[68] % 16) as int * 256 + e[67],
        geometry_of(e).h_active < 4096,
        geometry_of(e).v_active < 4096,
        geometry_of(e).w_mm < 4096,
        geometry_of(e).h_mm < 4096,
{
    let (a, b, c, d, x, y, z) = (e[56] as u32, e[58] as u32, e[59] as u32, e[61] as u32, e[66] as u32, e[67] as u32, e[68] as u32);
    assert(((b & 0xF0u32) << 4u32) | a == (b / 16) * 256 + a) by (bit_vector)
        requires
            a < 256,
            b < 256,
    ;
    assert(((d & 0xF0u32) << 4u32) | c == (d / 16) * 256 + c) by (bit_vector)
        requires
            c < 256,
            d < 256,
    ;
    assert(((z & 0xF0u32) << 4u32) | x == (z / 16) * 256 + x) by (bit_vector)
        requires
            x < 256,
            z < 256,
    ;
    assert(((z & 0x0Fu32) << 8u32) | y == (z % 16) * 256 + y) by (bit_vector)
        requires
            y < 256,
            z < 256,
    ;
}

/// Whether a DRM entry is a connected output (a connector name, with a
/// `-`, whose status reads `connected`).
pub open spec fn connected_output(c: DrmConnector) -> bool {
    c.name@.contains('-') && content_or_empty(opt_string_view(c.status)) == "connected"@
}

/// The EDID search takes the first connected output whose EDID holds the
/// timing block, skipping connected outputs with EDIDs under 68 bytes and
/// every other entry: its geometry is found. With no connected output at
/// all, nothing is found.
pub proof fn lemma_edid_first_full(cs: Seq<DrmConnector>, i: int, e: Vec<u8>)
    ensures
        ({
            &&& 0 <= i < cs.len()
            &&& connected_output(cs[i])
            &&& cs[i].edid == Some(e)
            &&& e@.len() >= 72
            &&& forall|j: int|
                0 <= j < i && connected_output(#[trigger] cs[j]) ==> (cs[j].edid matches Some(x) && x@.len() < 68)
        }) ==> edid_pick_of(cs) == EdidPick::Found(geometry_of(e@)),
        (forall|j: int| 0 <= j < cs.len() ==> !connected_output(#[trigger] cs[j])) ==> edid_pick_of(cs)
            == EdidPick::NotFound,
    decreases cs.len(),
{
    if cs.len() > 0 {
        lemma_edid_first_full(cs.drop_first(), i - 1, e);
        assert forall|j: int| 0 <= j < cs.drop_first().len() implies #[trigger] cs.drop_first()[j] == cs[j + 1] by {}
        if 0 < i < cs.len() && connected_output(cs[i]) && cs[i].edid == Some(e) && e@.len() >= 72 && (forall|j: int|
            0 <= j < i && connected_output(#[trigger] cs[j]) ==> (cs[j].edid matches Some(x) && x@.len() < 68)) {
            assert(cs.drop_first()[i - 1] == cs[i]);
            assert forall|j: int|
                0 <= j < i - 1 && connected_output(#[trigger] cs.drop_first()[j]) implies (cs.drop_first()[j].edid matches Some(x)
                    && x@.len() < 68) by {
                assert(cs.drop_first()[j] == cs[j + 1]);
            }
            assert(connected_output(cs[0]) ==> (cs[0].edid matches Some(x) && x@.len() < 68));
        }
        if forall|j: int| 0 <= j < cs.len() ==> !connected_output(#[trigger] cs[j]) {
            assert(!connected_output(cs[0]));
            assert forall|j: int| 0 <= j < cs.drop_first().len() implies !connected_output(#[trigger] cs.drop_first()[j]) by {
                assert(cs.drop_first()[j] == cs[j + 1]);
            }
        }
    }
}

} // verus!
