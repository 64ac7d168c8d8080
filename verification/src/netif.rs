//! Network interfaces: `/proc/net/dev` counters, `/sys/class/net`
//! classification and per-interval byte deltas.
use vstd::prelude::*;
use crate::sysfs::{content_or_empty, opt_string_view, opt_view, parse_attr, parsed, read_string_or_empty};
use crate::table::{distinct_names, lemma_pairs_map_at, lookup, pairs_map, NameTable};
use crate::text::{
    eq_str, lines, parse_u64, parse_u64_chars, split_lines, split_once, split_once_char, split_ws,
    starts_with, strip_prefix_str, to_chars, to_string, tokens, trim, trim_chars, views,
};

verus! {

/// Per-interface RX/TX byte counters from /proc/net/dev.
#[derive(Debug, Clone, Copy, PartialEq, Eq)]
pub struct IfCounters {
    pub rx_bytes: u64,
    pub tx_bytes: u64,
}

pub open spec fn zero_counters() -> IfCounters {
    IfCounters { rx_bytes: 0, tx_bytes: 0 }
}

impl Default for IfCounters {
    fn default() -> (r: Self)
        ensures
            r == zero_counters(),
    {
        IfCounters { rx_bytes: 0, tx_bytes: 0 }
    }
}

/// What one line of `/proc/net/dev` (past the two header lines) contributes:
/// the interface name and its counters, unless it is `lo`, has no `:` or
/// too few fields.
pub open spec fn net_dev_line(l: Seq<char>) -> Option<(Seq<char>, IfCounters)> {
    match split_once(l, ':') {
        None => None,
        Some((name, rest)) => {
            let n = trim(name);
            let parts = tokens(rest);
            if n == "lo"@ || parts.len() < 9 {
                None
            } else {
                Some(
                    (
                        n,
                        IfCounters {
                            rx_bytes: match parse_u64(parts[0]) {
                                Some(v) => v,
                                None => 0,
                            },
                            tx_bytes: match parse_u64(parts[8]) {
                                Some(v) => v,
                                None => 0,
                            },
                        },
                    ),
                )
            }
        },
    }
}

/// The counters of the given lines; a later line for a name replaces an
/// earlier one.
pub open spec fn net_dev_lines(ls: Seq<Seq<char>>) -> Map<Seq<char>, IfCounters>
    decreases ls.len(),
{
    if ls.len() == 0 {
        Map::empty()
    } else {
        let prior = net_dev_lines(ls.drop_last());
        match net_dev_line(ls.last()) {
            Some((n, c)) => prior.insert(n, c),
            None => prior,
        }
    }
}

/// The lines of `s` past the first two.
pub open spec fn past_header(ls: Seq<Seq<char>>) -> Seq<Seq<char>> {
    if ls.len() <= 2 {
        Seq::empty()
    } else {
        ls.skip(2)
    }
}

/// What `read_proc_net_dev` gives for the text of `/proc/net/dev`.
pub open spec fn net_dev_of(text: Seq<char>) -> Map<Seq<char>, IfCounters> {
    net_dev_lines(past_header(lines(text)))
}

/// The per-interface counters in the text of `/proc/net/dev` (loopback left out).
pub fn read_proc_net_dev(text: &str) -> (r: NameTable<IfCounters>)
    ensures
        r.wf(),
        r.map() == net_dev_of(text@),
{
    let s = to_chars(text);
    let ls = split_lines(&s);
    let mut out: NameTable<IfCounters> = NameTable::new();
    let n = ls.len();
    if n <= 2 {
        return out;
    }
    let ghost body = views(ls@).skip(2);
    for k in 2..n
        invariant
            n == ls.len(),
            n > 2,
            body == views(ls@).skip(2),
            out.wf(),
            out.map() == net_dev_lines(body.take(k - 2)),
    {
        assert(body.take(k - 1).drop_last() =~= body.take(k - 2));
        assert(body.take(k - 1).last() == ls@[k as int]@);
        let line = &ls[k];
        match split_once_char(line, ':') {
            None => {},
            Some((name, rest)) => {
                let nm = trim_chars(&name);
                let parts = split_ws(&rest);
                if !(eq_str(&nm, "lo") || parts.len() < 9) {
                    assert(views(parts@)[0] == parts@[0]@);
                    assert(views(parts@)[8] == parts@[8]@);
                    let rx = match parse_u64_chars(&parts[0]) {
                        Some(v) => v,
                        None => 0,
                    };
                    let tx = match parse_u64_chars(&parts[8]) {
                        Some(v) => v,
                        None => 0,
                    };
                    out.insert(to_string(&nm), IfCounters { rx_bytes: rx, tx_bytes: tx });
                }
            },
        }
    }
    assert(body.take(n - 2) =~= body);
    out
}

/// The value of the first `DEVTYPE=` line.
pub open spec fn devtype_of(ls: Seq<Seq<char>>) -> Option<Seq<char>>
    decreases ls.len(),
{
    if ls.len() == 0 {
        None
    } else if starts_with(ls[0], "DEVTYPE="@) {
        Some(ls[0].skip("DEVTYPE="@.len() as int))
    } else {
        devtype_of(ls.drop_first())
    }
}

/// What `read_iface_type` gives for a `uevent` file whose raw content is `raw`.
pub open spec fn iface_type_of(raw: Option<Seq<char>>) -> Option<Seq<char>> {
    match raw {
        Some(s) => devtype_of(lines(trim(s))),
        None => None,
    }
}

/// The `DEVTYPE` of an interface from its `uevent` file.
pub fn read_iface_type(raw: &Option<String>) -> (r: Option<String>)
    ensures
        match r {
            Some(t) => iface_type_of(opt_string_view(*raw)) == Some(t@),
            None => iface_type_of(opt_string_view(*raw)) is None,
        },
{
    let content = match raw {
        Some(s) => s,
        None => return None,
    };
    let v = to_chars(content.as_str());
    let t = trim_chars(&v);
    let ls = split_lines(&t);
    let n = ls.len();
    let mut k: usize = 0;
    assert(views(ls@).skip(0) =~= views(ls@));
    while k < n
        invariant
            n == ls.len(),
            k <= n,
            devtype_of(views(ls@)) == devtype_of(views(ls@).skip(k as int)),
            iface_type_of(opt_string_view(*raw)) == devtype_of(views(ls@)),
        decreases n - k,
    {
        assert(views(ls@).skip(k as int)[0] == ls@[k as int]@);
        assert(views(ls@).skip(k as int).drop_first() =~= views(ls@).skip(k + 1));
        match strip_prefix_str(&ls[k], "DEVTYPE=") {
            Some(val) => return Some(to_string(&val)),
            None => {},
        }
        k += 1;
    }
    None
}

/// The operational state of an interface (`""` when unreadable).
pub fn iface_operstate(raw: &Option<String>) -> (r: String)
    ensures
        r@ == content_or_empty(opt_string_view(*raw)),
{
    let v = read_string_or_empty(raw);
    to_string(&v)
}

pub open spec fn speed_of(raw: Option<Seq<char>>) -> u32 {
    match parsed::<i64>(raw) {
        Some(v) => if v > 0 {
            v as u32
        } else {
            0
        },
        None => 0,
    }
}

/// The link speed in Mbit/s from the `speed` file (0 when unknown or
/// negative; larger values are truncated to `u32`).
pub fn iface_speed_mbps(raw: &Option<String>) -> (r: u32)
    ensures
        r == speed_of(opt_string_view(*raw)),
{
    match parse_attr::<i64>(raw) {
        Some(v) => if v > 0 {
            v as u32
        } else {
            0
        },
        None => 0,
    }
}

/// One entry of `/sys/class/net`: its name, the raw contents of its
/// `operstate` and `uevent` files, and whether it has a `wireless` directory.
#[derive(Debug, Clone)]
pub struct IfaceEntry {
    pub name: String,
    pub operstate: Option<String>,
    pub wireless: bool,
    pub uevent: Option<String>,
}

/// Classified interfaces; the first connected of each kind wins.
#[derive(Debug, Clone)]
pub struct Interfaces {
    pub ethernet: Option<String>,
    pub wifi: Option<String>,
}

pub open spec fn opt_str(o: Option<String>) -> Option<Seq<char>> {
    match o {
        Some(s) => Some(s@),
        None => None,
    }
}

/// Whether an interface reports its operational state as `up`.
pub open spec fn is_up(e: IfaceEntry) -> bool {
    content_or_empty(opt_string_view(e.operstate)) == "up"@
}

/// Whether an entry is a wifi interface (`wifi`) or a plain ethernet one
/// (no `DEVTYPE`, not wireless); `lo` is neither.
pub open spec fn of_kind(e: IfaceEntry, wifi: bool) -> bool {
    e.name@ != "lo"@ && if wifi {
        e.wireless
    } else {
        !e.wireless && iface_type_of(opt_string_view(e.uevent)) is None
    }
}

/// The name of the first entry of the kind (that is up, when `need_up`).
pub open spec fn first_of_kind(es: Seq<IfaceEntry>, wifi: bool, need_up: bool) -> Option<Seq<char>>
    decreases es.len(),
{
    if es.len() == 0 {
        None
    } else if of_kind(es[0], wifi) && (!need_up || is_up(es[0])) {
        Some(es[0].name@)
    } else {
        first_of_kind(es.drop_first(), wifi, need_up)
    }
}

/// The interface of a kind to report: the first connected one, else the
/// first one.
pub open spec fn pick_of(es: Seq<IfaceEntry>, wifi: bool) -> Option<Seq<char>> {
    match first_of_kind(es, wifi, true) {
        Some(n) => Some(n),
        None => first_of_kind(es, wifi, false),
    }
}

fn find_of_kind(entries: &Vec<IfaceEntry>, wifi: bool, need_up: bool) -> (r: Option<String>)
    ensures
        opt_str(r) == first_of_kind(entries@, wifi, need_up),
{
    let n = entries.len();
    let mut k: usize = 0;
    assert(entries@.skip(0) =~= entries@);
    while k < n
        invariant
            n == entries.len(),
            k <= n,
            first_of_kind(entries@, wifi, need_up) == first_of_kind(entries@.skip(k as int), wifi, need_up),
        decreases n - k,
    {
        assert(entries@.skip(k as int)[0] == entries@[k as int]);
        assert(entries@.skip(k as int).drop_first() =~= entries@.skip(k + 1));
        let e = &entries[k];
        let name = to_chars(e.name.as_str());
        let kind = !eq_str(&name, "lo") && if wifi {
            e.wireless
        } else {
            !e.wireless && read_iface_type(&e.uevent).is_none()
        };
        if kind {
            let state = read_string_or_empty(&e.operstate);
            if !need_up || eq_str(&state, "up") {
                return Some(e.name.clone());
            }
        }
        k += 1;
    }
    assert(entries@.skip(n as int) =~= Seq::<IfaceEntry>::empty());
    None
}

fn pick(entries: &Vec<IfaceEntry>, wifi: bool) -> (r: Option<String>)
    ensures
        opt_str(r) == pick_of(entries@, wifi),
{
    match find_of_kind(entries, wifi, true) {
        Some(n) => Some(n),
        None => find_of_kind(entries, wifi, false),
    }
}

/// Picks the ethernet and wifi interfaces among the entries of
/// `/sys/class/net` (in directory order): of each kind, the first connected
/// one wins, else the first one.
pub fn classify(entries: &Vec<IfaceEntry>) -> (r: Interfaces)
    ensures
        opt_str(r.ethernet) == pick_of(entries@, false),
        opt_str(r.wifi) == pick_of(entries@, true),
{
    Interfaces { ethernet: pick(entries, false), wifi: pick(entries, true) }
}

pub open spec fn sat_sub(a: u64, b: u64) -> u64 {
    if a >= b {
        (a - b) as u64
    } else {
        0
    }
}

pub open spec fn sat(x: int) -> u64 {
    if x > u64::MAX {
        u64::MAX
    } else {
        x as u64
    }
}

pub open spec fn prev_of(last: Map<Seq<char>, IfCounters>, k: Seq<char>) -> IfCounters {
    match lookup(last, k) {
        Some(c) => c,
        None => zero_counters(),
    }
}

/// The counters of `cur` less those of `last` (saturating at 0 each).
pub open spec fn delta_of(last: Map<Seq<char>, IfCounters>, k: Seq<char>, c: IfCounters) -> IfCounters {
    IfCounters {
        rx_bytes: sat_sub(c.rx_bytes, prev_of(last, k).rx_bytes),
        tx_bytes: sat_sub(c.tx_bytes, prev_of(last, k).tx_bytes),
    }
}

/// What one interface moved between the committed counters `last` and the
/// current ones: the saturating deltas when both know the interface, else
/// nothing.
pub open spec fn iface_delta(last: Map<Seq<char>, IfCounters>, cur: Map<Seq<char>, IfCounters>, k: Seq<char>) -> IfCounters {
    if last.contains_key(k) && cur.contains_key(k) {
        IfCounters {
            rx_bytes: sat_sub(cur[k].rx_bytes, last[k].rx_bytes),
            tx_bytes: sat_sub(cur[k].tx_bytes, last[k].tx_bytes),
        }
    } else {
        zero_counters()
    }
}

/// The deltas summed over the given interfaces (without saturation).
pub open spec fn rx_sum(last: Map<Seq<char>, IfCounters>, ps: Seq<(Seq<char>, IfCounters)>) -> int
    decreases ps.len(),
{
    if ps.len() == 0 {
        0
    } else {
        rx_sum(last, ps.drop_last()) + delta_of(last, ps.last().0, ps.last().1).rx_bytes
    }
}

pub open spec fn tx_sum(last: Map<Seq<char>, IfCounters>, ps: Seq<(Seq<char>, IfCounters)>) -> int
    decreases ps.len(),
{
    if ps.len() == 0 {
        0
    } else {
        tx_sum(last, ps.drop_last()) + delta_of(last, ps.last().0, ps.last().1).tx_bytes
    }
}

proof fn lemma_rx_sum_nonneg(last: Map<Seq<char>, IfCounters>, ps: Seq<(Seq<char>, IfCounters)>)
    ensures
        rx_sum(last, ps) >= 0,
        tx_sum(last, ps) >= 0,
    decreases ps.len(),
{
    if ps.len() > 0 {
        lemma_rx_sum_nonneg(last, ps.drop_last());
    }
}

/// Counters from the previous interval, to turn cumulative byte counts into
/// per-interval deltas.
#[derive(Debug, Clone)]
pub struct NetState {
    pub last: NameTable<IfCounters>,
}

impl NetState {
    /// No previous counters: every interface counts from zero.
    pub fn new() -> (r: Self)
        ensures
            r.last.wf(),
            r.last.map() == Map::<Seq<char>, IfCounters>::empty(),
    {
        NetState { last: NameTable::new() }
    }

    /// Bytes received/sent on interface `name` since the committed counters;
    /// zero for an interface that is unknown: missing from the committed
    /// counters or from `cur`.
    pub fn sample_iface_rate(&self, cur: &NameTable<IfCounters>, name: &str) -> (r: IfCounters)
        requires
            self.last.wf(),
            cur.wf(),
        ensures
            r == iface_delta(self.last.map(), cur.map(), name@),
    {
        let key = to_chars(name);
        match (self.last.get(&key), cur.get(&key)) {
            (Some(prev), Some(c)) => IfCounters {
                rx_bytes: c.rx_bytes.saturating_sub(prev.rx_bytes),
                tx_bytes: c.tx_bytes.saturating_sub(prev.tx_bytes),
            },
            _ => IfCounters { rx_bytes: 0, tx_bytes: 0 },
        }
    }

    /// Bytes received/sent on all interfaces of `cur` since the committed
    /// counters, each total saturating at `u64::MAX`.
    pub fn sample_total_rate(&self, cur: &NameTable<IfCounters>) -> (r: IfCounters)
        requires
            self.last.wf(),
        ensures
            r.rx_bytes == sat(rx_sum(self.last.map(), cur.pairs())),
            r.tx_bytes == sat(tx_sum(self.last.map(), cur.pairs())),
    {
        let mut rx: u64 = 0;
        let mut tx: u64 = 0;
        let n = cur.len();
        for i in 0..n
            invariant
                n == cur.pairs().len(),
                self.last.wf(),
                rx == sat(rx_sum(self.last.map(), cur.pairs().take(i as int))),
                tx == sat(tx_sum(self.last.map(), cur.pairs().take(i as int))),
        {
            let (k, v) = cur.entry(i);
            assert(cur.pairs().take(i + 1).drop_last() =~= cur.pairs().take(i as int));
            assert(cur.pairs().take(i + 1).last() == cur.pairs()[i as int]);
            let key = to_chars(k.as_str());
            let p = match self.last.get(&key) {
                Some(c) => c,
                None => IfCounters { rx_bytes: 0, tx_bytes: 0 },
            };
            let dr = v.rx_bytes.saturating_sub(p.rx_bytes);
            let dt = v.tx_bytes.saturating_sub(p.tx_bytes);
            assert(dr == delta_of(self.last.map(), k@, v).rx_bytes);
            assert(rx_sum(self.last.map(), cur.pairs().take(i + 1)) == rx_sum(self.last.map(), cur.pairs().take(i as int)) + dr);
            assert(tx_sum(self.last.map(), cur.pairs().take(i + 1)) == tx_sum(self.last.map(), cur.pairs().take(i as int)) + dt);
            proof {
                lemma_rx_sum_nonneg(self.last.map(), cur.pairs().take(i as int));
            }
            rx = rx.saturating_add(dr);
            tx = tx.saturating_add(dt);
        }
        assert(cur.pairs().take(n as int) =~= cur.pairs());
        IfCounters { rx_bytes: rx, tx_bytes: tx }
    }

    /// Makes `cur` the counters that later deltas are taken against.
    pub fn commit(&mut self, cur: NameTable<IfCounters>)
        ensures
            final(self).last == cur,
    {
        self.last = cur;
    }
}

/// Reading the committed counters again gives no traffic: after
/// `commit(cur)`, `sample_total_rate(cur)` is zero in both directions.
pub proof fn lemma_commit_then_sample_is_zero(cur: NameTable<IfCounters>)
    requires
        cur.wf(),
    ensures
        rx_sum(cur.map(), cur.pairs()) == 0,
        tx_sum(cur.map(), cur.pairs()) == 0,
{
    lemma_self_sums_zero(cur.pairs(), cur.pairs().len() as int);
    assert(cur.pairs().take(cur.pairs().len() as int) =~= cur.pairs());
}

proof fn lemma_self_sums_zero(ps: Seq<(Seq<char>, IfCounters)>, k: int)
    requires
        distinct_names(ps),
        0 <= k <= ps.len(),
    ensures
        rx_sum(pairs_map(ps), ps.take(k)) == 0,
        tx_sum(pairs_map(ps), ps.take(k)) == 0,
    decreases k,
{
    if k > 0 {
        lemma_self_sums_zero(ps, k - 1);
        assert(ps.take(k).drop_last() =~= ps.take(k - 1));
        assert(ps.take(k).last() == ps[k - 1]);
        lemma_pairs_map_at(ps, k - 1);
    }
}

/// Link state of the ethernet interface.
#[derive(Debug, Clone)]
pub struct EthernetLink {
    pub connected: bool,
    pub interface_name: String,
    pub link_speed_mbps: u32,
}

/// Link state of the wifi interface.
#[derive(Debug, Clone)]
pub struct WifiLink {
    pub connected: bool,
    pub interface_name: String,
}

/// The ethernet link: connected when `operstate` reads `up`; nothing
/// connected when there is no ethernet interface.
pub fn read_ethernet(name: Option<&String>, operstate: &Option<String>, speed: &Option<String>) -> (r:
    EthernetLink)
    ensures
        match name {
            Some(n) => r.connected == (content_or_empty(opt_string_view(*operstate)) == "up"@)
                && r.interface_name@ == n@ && r.link_speed_mbps == speed_of(opt_string_view(*speed)),
            None => !r.connected && r.interface_name@.len() == 0 && r.link_speed_mbps == 0,
        },
{
    match name {
        Some(n) => {
            let st = read_string_or_empty(operstate);
            EthernetLink {
                connected: eq_str(&st, "up"),
                interface_name: n.clone(),
                link_speed_mbps: iface_speed_mbps(speed),
            }
        },
        None => EthernetLink { connected: false, interface_name: String::new(), link_speed_mbps: 0 },
    }
}

/// The wifi link: connected when `operstate` reads `up`.
pub fn read_wifi(name: Option<&String>, operstate: &Option<String>) -> (r: WifiLink)
    ensures
        match name {
            Some(n) => r.connected == (content_or_empty(opt_string_view(*operstate)) == "up"@)
                && r.interface_name@ == n@,
            None => !r.connected && r.interface_name@.len() == 0,
        },
{
    match name {
        Some(n) => {
            let st = read_string_or_empty(operstate);
            WifiLink { connected: eq_str(&st, "up"), interface_name: n.clone() }
        },
        None => WifiLink { connected: false, interface_name: String::new() },
    }
}

} // verus!
