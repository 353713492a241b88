//! Ingest statistics: totals of reads seen, multi-mapped reads and unmapped
//! reads, as counted while the equivalence classes are built.
use vstd::prelude::*;

verus! {

pub struct Stats {
    pub total_read_cnt: u64,
    pub total_multi_mapped_reads: u64,
    pub total_unmapped_reads: u64,
}

impl Stats {
    pub fn new_with_stats(total_read_cnt: u64, total_multi_mapped_reads: u64, total_unmapped_reads: u64) -> (r: Stats)
        ensures
            r.total_read_cnt == total_read_cnt,
            r.total_multi_mapped_reads == total_multi_mapped_reads,
            r.total_unmapped_reads == total_unmapped_reads,
    {
        Stats { total_read_cnt, total_multi_mapped_reads, total_unmapped_reads }
    }

    pub fn get_total_read_cnt(&self) -> (r: u64)
        ensures
            r == self.total_read_cnt,
    {
        self.total_read_cnt
    }

    pub fn get_total_unmapped_reads(&self) -> (r: u64)
        ensures
            r == self.total_unmapped_reads,
    {
        self.total_unmapped_reads
    }
}

} // verus!
