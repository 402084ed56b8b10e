//! The outcome of a single timed pass over all regions.
use vstd::prelude::*;

use crate::maps::views;
use crate::region::{Region, RegionView};

verus! {

/// The number of bytes that the regions cover together.
pub open spec fn total_size(s: Seq<RegionView>) -> int
    decreases s.len(),
{
    if s.len() == 0 {
        0
    } else {
        total_size(s.drop_last()) + s.last().size()
    }
}

/// Every region ends at or after its start.
pub open spec fn all_ordered(s: Seq<RegionView>) -> bool {
    forall|i: int| 0 <= i < s.len() ==> (#[trigger] s[i]).start <= s[i].end
}

proof fn lemma_total_size_grows(s: Seq<RegionView>, n: int)
    requires
        0 <= n <= s.len(),
        all_ordered(s),
    ensures
        total_size(s.subrange(0, n)) <= total_size(s),
    decreases s.len() - n,
{
    if n == s.len() {
        assert(s.subrange(0, n) =~= s);
    } else {
        lemma_total_size_grows(s, n + 1);
        let p = s.subrange(0, n + 1);
        assert(p.drop_last() =~= s.subrange(0, n));
        assert(p.last() == s[n]);
    }
}

/// Result of a benchmark: what one pass of discovery and fingerprinting cost.
#[derive(Debug, Clone)]
pub struct BenchmarkResult {
    /// time spent finding which memory regions to fingerprint, in nanoseconds
    pub scan_time_nanos: u64,
    /// time spent fingerprinting the regions, in nanoseconds
    pub hash_time_nanos: u64,
    /// how many bytes were fingerprinted in total
    pub hashed_bytes: isize,
    /// the regions fingerprinted, with where they come from
    pub regions: Vec<Region>,
}

impl BenchmarkResult {
    /// The result of a pass over `regions` with the given timings. `None` when a
    /// region ends before it starts, or when the total size does not fit in `isize`.
    pub fn new(scan_time_nanos: u64, hash_time_nanos: u64, regions: Vec<Region>) -> (r: Option<
        BenchmarkResult,
    >)
        ensures
            r is Some <==> all_ordered(views(regions@)) && total_size(views(regions@))
                <= isize::MAX,
            r matches Some(b) ==> {
                &&& b.scan_time_nanos == scan_time_nanos
                &&& b.hash_time_nanos == hash_time_nanos
                &&& b.regions@ == regions@
                &&& b.hashed_bytes == total_size(views(b.regions@))
            },
    {
        let ghost s = views(regions@);
        let mut total: usize = 0;
        let mut i: usize = 0;
        while i < regions.len()
            invariant
                i <= regions@.len(),
                s == views(regions@),
                total <= isize::MAX,
                total == total_size(s.subrange(0, i as int)),
                forall|j: int| 0 <= j < i ==> (#[trigger] s[j]).start <= s[j].end,
            decreases regions@.len() - i,
        {
            let ghost p = s.subrange(0, i + 1);
            proof {
                assert(p.drop_last() =~= s.subrange(0, i as int));
                assert(p.last() == s[i as int]);
            }
            if regions[i].end < regions[i].start {
                return None;
            }
            let size = regions[i].end - regions[i].start;
            if size > (isize::MAX as usize) - total {
                proof {
                    if all_ordered(s) {
                        lemma_total_size_grows(s, i + 1);
                    }
                }
                return None;
            }
            total = total + size;
            i = i + 1;
        }
        proof {
            assert(s.subrange(0, i as int) =~= s);
        }
        Some(
            BenchmarkResult {
                scan_time_nanos,
                hash_time_nanos,
                hashed_bytes: total as isize,
                regions,
            },
        )
    }
}

} // verus!
