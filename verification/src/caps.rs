//! Capability probe: the one-line summary of which data sources are usable.
use vstd::prelude::*;
use crate::sysfs::{opt_view, parsed, read_parse};
use crate::text::{decimal, push_decimal, push_str, string_of};

verus! {

/// What the RAPL probe reports: `absent` without domains, `denied` when some
/// domain's counter could not be read, `ok` otherwise.
pub open spec fn rapl_state_of(energies: Seq<Option<u64>>) -> Seq<char> {
    if energies.len() == 0 {
        "absent"@
    } else if exists|i: int| 0 <= i < energies.len() && #[trigger] energies[i] is None {
        "denied"@
    } else {
        "ok"@
    }
}

/// The RAPL probe, given the energy reading of each domain (`None` where it
/// could not be read).
pub fn probe_rapl(energies: &Vec<Option<u64>>) -> (r: String)
    ensures
        r@ == rapl_state_of(energies@),
{
    if energies.len() == 0 {
        return string_of("absent");
    }
    let n = energies.len();
    for k in 0..n
        invariant
            n == energies.len(),
            forall|i: int| 0 <= i < k ==> !(#[trigger] energies@[i] is None),
    {
        if energies[k].is_none() {
            return string_of("denied");
        }
    }
    string_of("ok")
}

/// What the perf probe reports for `perf_event_paranoid`: `ok` at 1 or
/// below, `denied(perf_event_paranoid=N)` above, `absent` when unreadable.
pub open spec fn pmu_state_of(raw: Option<Seq<char>>) -> Seq<char> {
    match parsed::<i32>(raw) {
        Some(v) => if v <= 1 {
            "ok"@
        } else {
            "denied(perf_event_paranoid="@ + decimal(v as nat) + ")"@
        },
        None => "absent"@,
    }
}

/// The perf probe, given the raw content of
/// `/proc/sys/kernel/perf_event_paranoid` (`None` when unreadable).
pub fn probe_perf_paranoid(raw: Option<&str>) -> (r: String)
    ensures
        r@ == pmu_state_of(opt_view(raw)),
{
    match read_parse::<i32>(raw) {
        Some(v) => if v <= 1 {
            string_of("ok")
        } else {
            let mut s = string_of("denied(perf_event_paranoid=");
            push_decimal(&mut s, v as u64);
            push_str(&mut s, ")");
            s
        },
        None => string_of("absent"),
    }
}

pub open spec fn nvme_state_of(present: bool, openable: bool) -> Seq<char> {
    if present {
        if openable {
            "ok"@
        } else {
            "denied"@
        }
    } else {
        "absent"@
    }
}

pub open spec fn procs_state_of(root: bool) -> Seq<char> {
    if root {
        "all-procs=ok"@
    } else {
        "all-procs=denied(non-root)"@
    }
}

/// The summary line printed at startup.
pub open spec fn summary_of(rapl: Seq<char>, pmu: Seq<char>, nvme_present: bool, nvme_openable: bool, root: bool) -> Seq<char> {
    "linpow: rapl="@ + rapl + " i915-pmu="@ + pmu + " nvme-smart="@ + nvme_state_of(
        nvme_present,
        nvme_openable,
    ) + " "@ + procs_state_of(root)
}

/// One-line capability summary so users know which data sources are
/// blocked by permissions: the RAPL and perf probe results, whether
/// `/dev/nvme0` exists and opens, and whether the process runs as root.
pub fn summary(rapl_state: &str, pmu_state: &str, nvme_present: bool, nvme_openable: bool, root: bool) -> (r:
    String)
    ensures
        r@ == summary_of(rapl_state@, pmu_state@, nvme_present, nvme_openable, root),
{
    let mut s = string_of("linpow: rapl=");
    push_str(&mut s, rapl_state);
    push_str(&mut s, " i915-pmu=");
    push_str(&mut s, pmu_state);
    push_str(&mut s, " nvme-smart=");
    let nvme = if nvme_present {
        if nvme_openable {
            "ok"
        } else {
            "denied"
        }
    } else {
        "absent"
    };
    push_str(&mut s, nvme);
    push_str(&mut s, " ");
    let procs = if root {
        "all-procs=ok"
    } else {
        "all-procs=denied(non-root)"
    };
    push_str(&mut s, procs);
    s
}

} // verus!
