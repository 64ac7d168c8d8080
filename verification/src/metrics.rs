//! Decisions of the sampler that are independent of threads and timing:
//! the P/E cluster split, core names and the average cluster frequency.
use vstd::prelude::*;
use crate::cpufreq::CpuTopology;
use crate::text::{decimal, push_decimal, string_of};

verus! {

/// Facts about the machine read once at startup.
#[derive(Debug, Clone)]
pub struct StaticSnapshot {
    pub gpu_cores: u32,
    pub dram_gb: u32,
    pub ssd_model: String,
}

fn copy_cpus(v: &Vec<u32>) -> (r: Vec<u32>)
    ensures
        r@ == v@,
{
    let mut out: Vec<u32> = Vec::new();
    let n = v.len();
    for k in 0..n
        invariant
            n == v.len(),
            out@ == v@.take(k as int),
    {
        out.push(v[k]);
        assert(v@.take(k + 1) =~= v@.take(k as int).push(v@[k as int]));
    }
    assert(v@.take(n as int) =~= v@);
    out
}

/// The CPUs of the P and E clusters: on a non-hybrid CPU every CPU counts
/// as a P-core.
pub fn cluster_cpus(topo: &CpuTopology) -> (r: (Vec<u32>, Vec<u32>))
    ensures
        topo.spec_is_hybrid() ==> r.0@ == topo.pcpus@ && r.1@ == topo.ecpus@,
        !topo.spec_is_hybrid() ==> r.0@ == topo.all@ && r.1@.len() == 0,
{
    if topo.is_hybrid() {
        (copy_cpus(&topo.pcpus), copy_cpus(&topo.ecpus))
    } else {
        (copy_cpus(&topo.all), Vec::new())
    }
}

/// The name of core `i` of a cluster, such as `PCPU3`.
pub fn core_name(prefix: &str, i: usize) -> (r: String)
    ensures
        r@ == prefix@ + decimal(i as nat),
{
    let mut s = string_of(prefix);
    push_decimal(&mut s, i as u64);
    s
}

/// The sum and the number of the frequencies that could be read.
pub open spec fn freq_sum(fs: Seq<Option<u32>>) -> (int, int)
    decreases fs.len(),
{
    if fs.len() == 0 {
        (0, 0)
    } else {
        let (s, n) = freq_sum(fs.drop_last());
        match fs.last() {
            Some(f) => (s + f, n + 1),
            None => (s, n),
        }
    }
}

/// The average of the frequencies that could be read (rounded down), 0 when
/// none could.
pub open spec fn avg_freq_of(fs: Seq<Option<u32>>) -> u32 {
    let (s, n) = freq_sum(fs);
    if n == 0 {
        0
    } else {
        (s / n) as u32
    }
}

proof fn lemma_freq_sum_bounds(fs: Seq<Option<u32>>)
    ensures
        0 <= freq_sum(fs).1 <= fs.len(),
        0 <= freq_sum(fs).0 <= freq_sum(fs).1 * u32::MAX,
    decreases fs.len(),
{
    if fs.len() > 0 {
        lemma_freq_sum_bounds(fs.drop_last());
    }
}

/// Average frequency (MHz) of a cluster given the frequency read for each of
/// its CPUs (`None` where it could not be read).
pub fn avg_freq_mhz(freqs: &Vec<Option<u32>>) -> (r: u32)
    requires
        freqs@.len() <= u32::MAX,
    ensures
        r == avg_freq_of(freqs@),
{
    if freqs.len() == 0 {
        return 0;
    }
    let mut sum: u64 = 0;
    let mut n: u64 = 0;
    let len = freqs.len();
    for k in 0..len
        invariant
            len == freqs.len(),
            len <= u32::MAX,
            (sum as int, n as int) == freq_sum(freqs@.take(k as int)),
            n <= k,
            sum <= n * u32::MAX,
    {
        assert(freqs@.take(k + 1).drop_last() =~= freqs@.take(k as int));
        assert(freqs@.take(k + 1).last() == freqs@[k as int]);
        match freqs[k] {
            Some(mhz) => {
                assert(sum + mhz <= (n + 1) * u32::MAX) by (nonlinear_arith)
                    requires
                        sum <= n * u32::MAX,
                        mhz <= u32::MAX,
                ;
                assert((n + 1) * u32::MAX <= 0x1_0000_0000 * 0xffff_ffff) by (nonlinear_arith)
                    requires
                        n + 1 <= 0x1_0000_0000,
                ;
                sum += mhz as u64;
                n += 1;
            },
            None => {},
        }
    }
    assert(freqs@.take(len as int) =~= freqs@);
    if n == 0 {
        0
    } else {
        assert(sum / n <= u32::MAX) by (nonlinear_arith)
            requires
                sum <= n * u32::MAX,
                n > 0,
        ;
        (sum / n) as u32
    }
}

} // verus!
