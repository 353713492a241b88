//! The abundance pipeline: ingest the alignment tables, build equivalence
//! classes and coverage bins, prune redundant strains with a greedy set
//! cover, and run the expectation-maximisation loop that produces the
//! per-strain abundance estimates (in millionths, summing to exactly
//! `SCALE`).
use vstd::prelude::*;

use crate::MAX_RECORDS;
use crate::MAX_SCORE;
use crate::SCALE;
use crate::equivalence_class_builder::EquivalenceClassBuilder;
use crate::equivalence_class_builder::TargetGroup;
use crate::equivalence_class_builder::WEIGHT_MAX;
use crate::equivalence_class_builder::entries_sum;
use crate::equivalence_class_builder::sum64;
use crate::readers::IngestError;
use crate::readers::Mapping;
use crate::readers::Method;
use crate::readers::Query;
use crate::readers::Reference;
use crate::readers::read_initial_alignments;
use crate::readers::total_mappings;
use crate::stats::Stats;
use crate::util::sort_vec;
use crate::util::sorted_by_fst;

verus! {

/// Turns one read's (reference id, weight) pairs into an equivalence-class
/// key (ids ascending) with the weights carried alongside their ids.
pub fn create_eqb(read_per_strain_prob_inst: Vec<(usize, u64)>) -> (r: (TargetGroup, Vec<u64>))
    ensures
        r.0.wf(),
        r.0.tgts@.len() == r.1@.len(),
        r.0.tgts@.len() == read_per_strain_prob_inst@.len(),
        sorted_by_fst(r.0.tgts@.zip_with(r.1@)),
        r.0.tgts@.zip_with(r.1@).to_multiset() == read_per_strain_prob_inst@.to_multiset(),
        forall|k: int|
            0 <= k < r.1@.len() ==> read_per_strain_prob_inst@.contains(
                (#[trigger] r.0.tgts@[k], #[trigger] r.1@[k]),
            ),
{
    let sorted_vec = sort_vec(&read_per_strain_prob_inst);
    let mut genome_ids: Vec<usize> = Vec::new();
    let mut probs: Vec<u64> = Vec::new();
    let mut i: usize = 0;
    while i < sorted_vec.len()
        invariant
            0 <= i <= sorted_vec@.len(),
            genome_ids@.len() == i,
            probs@.len() == i,
            forall|k: int| 0 <= k < i ==> #[trigger] genome_ids@[k] == sorted_vec@[k].0,
            forall|k: int| 0 <= k < i ==> #[trigger] probs@[k] == sorted_vec@[k].1,
        decreases sorted_vec.len() - i,
    {
        genome_ids.push(sorted_vec[i].0);
        probs.push(sorted_vec[i].1);
        i = i + 1;
    }
    proof {
        assert(genome_ids@.zip_with(probs@) =~= sorted_vec@);
        broadcast use vstd::seq_lib::group_to_multiset_ensures;

        assert forall|k: int|
            0 <= k < probs@.len() implies read_per_strain_prob_inst@.contains(
            (#[trigger] genome_ids@[k], #[trigger] probs@[k]),
        ) by {
            assert(sorted_vec@[k] == (genome_ids@[k], probs@[k]));
            assert(sorted_vec@.contains(sorted_vec@[k]));
            assert(sorted_vec@.to_multiset().count(sorted_vec@[k]) > 0);
            assert(read_per_strain_prob_inst@.to_multiset().count(sorted_vec@[k]) > 0);
        }
    }
    let tgt = TargetGroup::new_with_tgt(genome_ids);
    (tgt, probs)
}

/// The in-memory pipeline state: reference and read tables, equivalence
/// classes, coverage bins and the abundance vector (0-based, entry `i` for
/// reference id `i + 1`). After the estimation loop, `em_counts` and
/// `em_valid` hold the loop's final per-strain counts and validity map
/// (1-based, slot 0 reserved), of which `strain_abundance` is the exact
/// normalisation.
pub struct Cedar {
    pub eqb: EquivalenceClassBuilder,
    pub references: Vec<Reference>,
    pub queries: Vec<Query>,
    pub query_id_2_name: Vec<Vec<u8>>,
    pub strain_abundance: Vec<u64>,
    pub strain_coverage: Vec<u64>,
    pub strain_coverage_bins: Vec<Vec<u64>>,
    pub em_counts: Vec<u64>,
    pub em_valid: Vec<bool>,
    pub read_cnt: u64,
    pub unmapping_reads: u64,
}

impl Cedar {
    /// Structural invariant tying the tables together and capping every
    /// quantity that later arithmetic relies on.
    pub open spec fn wf(self) -> bool {
        &&& self.eqb.wf()
        &&& crate::readers::queries_wf(
            self.queries@,
            self.query_id_2_name@,
            self.references@.len() as int,
        )
        &&& self.references@.len() <= MAX_RECORDS
        &&& forall|r: int|
            0 <= r < self.references@.len() ==> 1 <= (#[trigger] self.references@[r]).ref_len
                <= crate::MAX_REF_LEN
        &&& forall|r: int|
            0 <= r < self.strain_coverage_bins@.len()
                ==> (#[trigger] self.strain_coverage_bins@[r])@.len() <= crate::MAX_REF_LEN + 1
        &&& self.strain_abundance@.len() == self.references@.len()
        &&& self.strain_coverage@.len() == self.references@.len()
        &&& self.strain_coverage_bins@.len() == self.references@.len()
        &&& forall|i: int|
            0 <= i < self.strain_abundance@.len() ==> #[trigger] self.strain_abundance@[i] <= SCALE
                * MAX_RECORDS
        &&& forall|i: int|
            0 <= i < self.strain_coverage@.len() ==> #[trigger] self.strain_coverage@[i] <= SCALE
        &&& forall|c: int, j: int|
            0 <= c < self.eqb.count_vec@.len() && 0 <= j
                < self.eqb.count_vec@[c].0.tgts@.len() ==> 1 <= #[trigger] self.eqb.count_vec@[
                c].0.tgts@[j] <= self.references@.len()
    }

    pub fn new() -> (r: Cedar)
        ensures
            r.wf(),
            r.references@.len() == 0,
            r.queries@.len() == 0,
            r.eqb.count_vec@.len() == 0,
            r.eqb.total_count == 0,
            r.eqb.total_entries == 0,
            r.eqb.active_,
    {
        Cedar {
            eqb: EquivalenceClassBuilder::new(),
            references: Vec::new(),
            queries: Vec::new(),
            query_id_2_name: Vec::new(),
            strain_abundance: Vec::new(),
            strain_coverage: Vec::new(),
            strain_coverage_bins: Vec::new(),
            em_counts: Vec::new(),
            em_valid: Vec::new(),
            read_cnt: 0,
            unmapping_reads: 0,
        }
    }

    pub fn get_queries(&self) -> (r: &Vec<Query>)
        ensures
            r@ == self.queries@,
    {
        &self.queries
    }

    pub fn get_references(&self) -> (r: &Vec<Reference>)
        ensures
            r@ == self.references@,
    {
        &self.references
    }

    pub fn get_strain_abundance(&self) -> (r: &Vec<u64>)
        ensures
            r@ == self.strain_abundance@,
    {
        &self.strain_abundance
    }

    pub fn get_unmapping_reads(&self) -> (r: u64)
        ensures
            r == self.unmapping_reads,
    {
        self.unmapping_reads
    }
}

} // verus!

verus! {

/// Number of reads in a prefix with more than one mapping.
pub open spec fn count_multi(qs: Seq<Query>) -> int
    decreases qs.len(),
{
    if qs.len() == 0 {
        0
    } else {
        count_multi(qs.drop_last()) + if qs.last().mappings@.len() > 1 {
            1int
        } else {
            0int
        }
    }
}

/// Number of nonzero bins.
pub open spec fn count_nonzero(s: Seq<u64>) -> int
    decreases s.len(),
{
    if s.len() == 0 {
        0
    } else {
        count_nonzero(s.drop_last()) + if s.last() > 0 {
            1int
        } else {
            0int
        }
    }
}

impl Cedar {
    /// Walks the read table once: counts the ingest statistics, seeds the
    /// initial per-strain counts (each mapping contributes `SCALE` divided
    /// by the read's mapping count), and folds every mapped read into its
    /// equivalence class.
    #[verifier::loop_isolation(false)]
    #[verifier::rlimit(60)]
    pub fn process_reads(&mut self) -> (stats: Stats)
        requires
            old(self).wf(),
            old(self).eqb.count_vec@.len() == 0,
            old(self).eqb.total_count == 0,
            old(self).eqb.total_entries == 0,
            old(self).eqb.active_,
            forall|r: int|
                0 <= r < old(self).strain_abundance@.len() ==> #[trigger] old(
                    self,
                ).strain_abundance@[r] == 0,
        ensures
            final(self).wf(),
            final(self).references@ == old(self).references@,
            final(self).queries@ == old(self).queries@,
            final(self).query_id_2_name@ == old(self).query_id_2_name@,
            final(self).strain_coverage@ == old(self).strain_coverage@,
            final(self).strain_coverage_bins@ == old(self).strain_coverage_bins@,
            final(self).strain_abundance@.len() == old(self).strain_abundance@.len(),
            stats.total_read_cnt == old(self).queries@.len(),
            stats.total_unmapped_reads == crate::readers::count_unmapped(old(self).queries@),
            stats.total_multi_mapped_reads == count_multi(old(self).queries@),
            final(self).eqb.total_count == crate::readers::count_mapped(old(self).queries@),
            final(self).eqb.total_entries == total_mappings(old(self).queries@),
    {
        let mut total_read_cnt: u64 = 0;
        let mut total_multi_mapped_reads: u64 = 0;
        let mut total_unmapped_reads: u64 = 0;
        let ghost qs = self.queries@;
        let n = self.queries.len();
        let mut i: usize = 0;
        while i < n
            invariant
                0 <= i <= qs.len(),
                n == qs.len(),
                self.queries@ == qs,
                self.references@ == old(self).references@,
                self.query_id_2_name@ == old(self).query_id_2_name@,
                self.strain_coverage@ == old(self).strain_coverage@,
                self.strain_coverage_bins@ == old(self).strain_coverage_bins@,
                self.read_cnt == old(self).read_cnt,
                self.unmapping_reads == old(self).unmapping_reads,
                self.strain_abundance@.len() == old(self).strain_abundance@.len(),
                total_read_cnt == i,
                total_unmapped_reads == crate::readers::count_unmapped(qs.take(i as int)),
                total_multi_mapped_reads == count_multi(qs.take(i as int)),
                total_unmapped_reads <= i,
                total_multi_mapped_reads <= i,
                self.eqb.wf(),
                self.eqb.active_,
                self.eqb.total_count == crate::readers::count_mapped(qs.take(i as int)),
                self.eqb.total_entries == total_mappings(qs.take(i as int)),
                forall|c: int, j: int|
                    0 <= c < self.eqb.count_vec@.len() && 0 <= j
                        < self.eqb.count_vec@[c].0.tgts@.len() ==> 1 <= #[trigger] self.eqb.count_vec@[
                        c].0.tgts@[j] <= self.references@.len(),
                forall|r: int|
                    0 <= r < self.strain_abundance@.len() ==> #[trigger] self.strain_abundance@[r]
                        <= SCALE * i,
            decreases n - i,
        {
            proof {
                assert(qs.take(i + 1).drop_last() =~= qs.take(i as int));
                assert(qs.take(i + 1).last() == qs[i as int]);
                crate::readers::lemma_total_mappings_prefix(qs, i + 1);
            }
            let cnt = self.queries[i].mappings.len();
            if cnt != 0 {
                if cnt > 1 {
                    total_multi_mapped_reads = total_multi_mapped_reads + 1;
                }
                let share: u64 = crate::SCALE / (cnt as u64);
                let ghost eqb_snap = self.eqb;
                let mut read_per_strain_prob_inst: Vec<(usize, u64)> = Vec::new();
                let mut m: usize = 0;
                while m < cnt
                    invariant
                        0 <= m <= cnt,
                        cnt == qs[i as int].mappings@.len(),
                        0 <= i < qs.len(),
                        self.queries@ == qs,
                        self.references@ == old(self).references@,
                        self.query_id_2_name@ == old(self).query_id_2_name@,
                        self.strain_coverage@ == old(self).strain_coverage@,
                        self.strain_coverage_bins@ == old(self).strain_coverage_bins@,
                        self.read_cnt == old(self).read_cnt,
                        self.unmapping_reads == old(self).unmapping_reads,
                        self.eqb == eqb_snap,
                        share == crate::SCALE / (cnt as u64),
                        self.strain_abundance@.len() == old(self).strain_abundance@.len(),
                        read_per_strain_prob_inst@.len() == m,
                        forall|k: int|
                            0 <= k < m ==> {
                                &&& 1 <= (#[trigger] read_per_strain_prob_inst@[k]).0
                                    <= self.references@.len()
                                &&& read_per_strain_prob_inst@[k].1 <= WEIGHT_MAX
                            },
                        forall|r: int|
                            0 <= r < self.strain_abundance@.len()
                                ==> #[trigger] self.strain_abundance@[r] <= SCALE * i + m * share,
                    decreases cnt - m,
                {
                    let mapping = self.queries[i].mappings[m];
                    proof {
                        assert(qs[i as int].mappings@[m as int] == mapping);
                        assert(1 <= mapping.reference_id <= self.references@.len());
                        assert(mapping.score <= MAX_SCORE);
                        assert(mapping.score * SCALE <= MAX_SCORE * SCALE) by (nonlinear_arith)
                            requires mapping.score <= MAX_SCORE;
                        vstd::arithmetic::div_mod::lemma_div_is_ordered_by_denominator(
                            (mapping.score * SCALE) as int,
                            1,
                            self.references@[mapping.reference_id - 1].ref_len as int,
                        );
                        assert(m * share + share == (m + 1) * share) by (nonlinear_arith);
                        assert((m + 1) * share <= cnt * share) by (nonlinear_arith)
                            requires m + 1 <= cnt, share >= 0;
                        vstd::arithmetic::div_mod::lemma_fundamental_div_mod(
                            SCALE as int,
                            cnt as int,
                        );
                        assert(cnt * share <= SCALE) by (nonlinear_arith)
                            requires
                                share == SCALE as int / cnt as int,
                                cnt >= 1,
                                SCALE as int == (cnt as int) * (SCALE as int / cnt as int) + SCALE
                                    as int % (cnt as int),
                                SCALE as int % (cnt as int) >= 0,
                        ;
                    }
                    let ref_len = self.references[mapping.reference_id - 1].ref_len;
                    let value: u64 = mapping.score * crate::SCALE / ref_len;
                    read_per_strain_prob_inst.push((mapping.reference_id, value));
                    let slot = mapping.reference_id - 1;
                    let cur = self.strain_abundance[slot];
                    self.strain_abundance[slot] = cur + share;
                    m = m + 1;
                }
                proof {
                    vstd::arithmetic::div_mod::lemma_fundamental_div_mod(SCALE as int, cnt as int);
                    assert(cnt * share <= SCALE) by (nonlinear_arith)
                        requires
                            share == SCALE as int / cnt as int,
                            cnt >= 1,
                            SCALE as int == (cnt as int) * (SCALE as int / cnt as int) + SCALE
                                as int % (cnt as int),
                            SCALE as int % (cnt as int) >= 0,
                    ;
                    assert(SCALE * i + cnt * share <= SCALE * (i + 1)) by (nonlinear_arith)
                        requires cnt * share <= SCALE;
                    crate::readers::lemma_total_mappings_elem(qs, i as int);
                }
                let c = create_eqb(read_per_strain_prob_inst);
                proof {
                    assert(c.0.tgts@.len() >= 1);
                    assert forall|k: int| 0 <= k < c.1@.len() implies #[trigger] c.1@[k]
                        <= WEIGHT_MAX by {
                        assert(read_per_strain_prob_inst@.contains((c.0.tgts@[k], c.1@[k])));
                        let mi = choose|mi: int|
                            0 <= mi < read_per_strain_prob_inst@.len()
                                && read_per_strain_prob_inst@[mi] == (c.0.tgts@[k], c.1@[k]);
                        assert(read_per_strain_prob_inst@[mi].1 <= WEIGHT_MAX);
                        assert(read_per_strain_prob_inst@[mi].1 == c.1@[k]);
                    }
                    assert forall|k: int| 0 <= k < c.0.tgts@.len() implies 1
                        <= #[trigger] c.0.tgts@[k] <= self.references@.len() by {
                        assert(read_per_strain_prob_inst@.contains((c.0.tgts@[k], c.1@[k])));
                        let mi = choose|mi: int|
                            0 <= mi < read_per_strain_prob_inst@.len()
                                && read_per_strain_prob_inst@[mi] == (c.0.tgts@[k], c.1@[k]);
                        assert(1 <= read_per_strain_prob_inst@[mi].0 <= self.references@.len());
                        assert(read_per_strain_prob_inst@[mi].0 == c.0.tgts@[k]);
                    }
                }
                let ghost pre_eqb = self.eqb;
                self.eqb.add_group(c.0, c.1);
                proof {
                    assert forall|d: int, j: int|
                        0 <= d < self.eqb.count_vec@.len() && 0 <= j
                            < self.eqb.count_vec@[d].0.tgts@.len() implies 1
                        <= #[trigger] self.eqb.count_vec@[d].0.tgts@[j]
                        <= self.references@.len() by {
                        if exists|cc: int|
                            0 <= cc < pre_eqb.count_vec@.len()
                                && #[trigger] pre_eqb.count_vec@[cc].0.tgts@ == c.0.tgts@ {
                            let cc = choose|cc: int|
                                0 <= cc < pre_eqb.count_vec@.len()
                                    && #[trigger] pre_eqb.count_vec@[cc].0.tgts@ == c.0.tgts@;
                            if d == cc {
                                assert(self.eqb.count_vec@[d].0.tgts@
                                    == pre_eqb.count_vec@[d].0.tgts@);
                            } else {
                                assert(self.eqb.count_vec@[d] == pre_eqb.count_vec@[d]);
                            }
                        } else {
                            if d < pre_eqb.count_vec@.len() {
                                assert(self.eqb.count_vec@[d] == pre_eqb.count_vec@[d]);
                            } else {
                                assert(self.eqb.count_vec@[d] == self.eqb.count_vec@.last());
                                assert(self.eqb.count_vec@.last().0.tgts@ == c.0.tgts@);
                            }
                        }
                    }
                }
            } else {
                total_unmapped_reads = total_unmapped_reads + 1;
            }
            total_read_cnt = total_read_cnt + 1;
            i = i + 1;
        }
        proof {
            assert(qs.take(qs.len() as int) =~= qs);
            assert(SCALE * qs.len() <= SCALE * MAX_RECORDS) by (nonlinear_arith)
                requires qs.len() <= MAX_RECORDS;
        }
        Stats::new_with_stats(total_read_cnt, total_multi_mapped_reads, total_unmapped_reads)
    }
}

} // verus!

verus! {

/// Number of mappings in a list that hit reference `rid` inside segment `b`.
pub open spec fn map_bin_hits(ms: Seq<Mapping>, rid: int, b: int, seg: int) -> int
    decreases ms.len(),
{
    if ms.len() == 0 {
        0
    } else {
        map_bin_hits(ms.drop_last(), rid, b, seg) + if ms.last().reference_id == rid
            && ms.last().position as int / seg == b {
            1int
        } else {
            0int
        }
    }
}

/// Number of mappings across the whole read table that hit reference `rid`
/// inside segment `b`.
pub open spec fn bin_hits(qs: Seq<Query>, rid: int, b: int, seg: int) -> int
    decreases qs.len(),
{
    if qs.len() == 0 {
        0
    } else {
        bin_hits(qs.drop_last(), rid, b, seg) + map_bin_hits(qs.last().mappings@, rid, b, seg)
    }
}

impl Cedar {
    /// Counts, for every reference, the alignment hits per fixed-length
    /// segment: bin `b` of reference `r` ends up holding the number of
    /// mappings to `r` whose position falls in the `b`-th segment. A
    /// position beyond the reference's binned range is ignored.
    #[verifier::loop_isolation(false)]
    pub fn update_bins(&mut self, segment_size: u64)
        requires
            old(self).wf(),
            segment_size >= 1,
            forall|r: int, b: int|
                0 <= r < old(self).strain_coverage_bins@.len() && 0 <= b
                    < old(self).strain_coverage_bins@[r]@.len()
                    ==> #[trigger] old(self).strain_coverage_bins@[r]@[b] == 0,
        ensures
            final(self).wf(),
            final(self).references@ == old(self).references@,
            final(self).queries@ == old(self).queries@,
            final(self).query_id_2_name@ == old(self).query_id_2_name@,
            final(self).strain_abundance@ == old(self).strain_abundance@,
            final(self).strain_coverage@ == old(self).strain_coverage@,
            final(self).eqb == old(self).eqb,
            final(self).read_cnt == old(self).read_cnt,
            final(self).unmapping_reads == old(self).unmapping_reads,
            final(self).strain_coverage_bins@.len() == old(self).strain_coverage_bins@.len(),
            forall|r: int|
                0 <= r < final(self).strain_coverage_bins@.len()
                    ==> (#[trigger] final(self).strain_coverage_bins@[r])@.len() == old(
                    self,
                ).strain_coverage_bins@[r]@.len(),
            forall|r: int, b: int|
                0 <= r < final(self).strain_coverage_bins@.len() && 0 <= b
                    < final(self).strain_coverage_bins@[r]@.len()
                    ==> #[trigger] final(self).strain_coverage_bins@[r]@[b] == bin_hits(
                    old(self).queries@,
                    r + 1,
                    b,
                    segment_size as int,
                ),
    {
        let ghost qs = self.queries@;
        let n = self.queries.len();
        let ghost total = total_mappings(qs);
        let mut i: usize = 0;
        while i < n
            invariant
                0 <= i <= qs.len(),
                n == qs.len(),
                self.queries@ == qs,
                self.references@ == old(self).references@,
                self.query_id_2_name@ == old(self).query_id_2_name@,
                self.strain_abundance@ == old(self).strain_abundance@,
                self.strain_coverage@ == old(self).strain_coverage@,
                self.read_cnt == old(self).read_cnt,
                self.unmapping_reads == old(self).unmapping_reads,
                self.eqb == old(self).eqb,
                self.strain_coverage_bins@.len() == old(self).strain_coverage_bins@.len(),
                forall|r: int|
                    0 <= r < self.strain_coverage_bins@.len()
                        ==> (#[trigger] self.strain_coverage_bins@[r])@.len() == old(
                        self,
                    ).strain_coverage_bins@[r]@.len(),
                forall|r: int, b: int|
                    0 <= r < self.strain_coverage_bins@.len() && 0 <= b
                        < self.strain_coverage_bins@[r]@.len()
                        ==> #[trigger] self.strain_coverage_bins@[r]@[b] <= total_mappings(
                        qs.take(i as int),
                    ),
                forall|r: int, b: int|
                    0 <= r < self.strain_coverage_bins@.len() && 0 <= b
                        < self.strain_coverage_bins@[r]@.len()
                        ==> #[trigger] self.strain_coverage_bins@[r]@[b] == bin_hits(
                        qs.take(i as int),
                        r + 1,
                        b,
                        segment_size as int,
                    ),
            decreases n - i,
        {
            proof {
                crate::readers::lemma_total_mappings_prefix(qs, i as int);
                crate::readers::lemma_total_mappings_prefix(qs, i + 1);
                assert(qs.take(i + 1).drop_last() =~= qs.take(i as int));
                assert(qs.take(i + 1).last() == qs[i as int]);
                crate::readers::lemma_total_mappings_elem(qs, i as int);
            }
            let cnt = self.queries[i].mappings.len();
            let mut m: usize = 0;
            while m < cnt
                invariant
                    0 <= m <= cnt,
                    cnt == qs[i as int].mappings@.len(),
                    0 <= i < qs.len(),
                    self.queries@ == qs,
                    self.references@ == old(self).references@,
                    self.query_id_2_name@ == old(self).query_id_2_name@,
                    self.strain_abundance@ == old(self).strain_abundance@,
                    self.strain_coverage@ == old(self).strain_coverage@,
                    self.read_cnt == old(self).read_cnt,
                    self.unmapping_reads == old(self).unmapping_reads,
                    self.eqb == old(self).eqb,
                    self.strain_coverage_bins@.len() == old(self).strain_coverage_bins@.len(),
                    forall|r: int|
                        0 <= r < self.strain_coverage_bins@.len()
                            ==> (#[trigger] self.strain_coverage_bins@[r])@.len() == old(
                            self,
                        ).strain_coverage_bins@[r]@.len(),
                    forall|r: int, b: int|
                        0 <= r < self.strain_coverage_bins@.len() && 0 <= b
                            < self.strain_coverage_bins@[r]@.len()
                            ==> #[trigger] self.strain_coverage_bins@[r]@[b] <= total_mappings(
                            qs.take(i as int),
                        ) + m,
                    forall|r: int, b: int|
                        0 <= r < self.strain_coverage_bins@.len() && 0 <= b
                            < self.strain_coverage_bins@[r]@.len()
                            ==> #[trigger] self.strain_coverage_bins@[r]@[b] == bin_hits(
                            qs.take(i as int),
                            r + 1,
                            b,
                            segment_size as int,
                        ) + map_bin_hits(
                            qs[i as int].mappings@.take(m as int),
                            r + 1,
                            b,
                            segment_size as int,
                        ),
                    total_mappings(qs.take(i as int)) + cnt <= MAX_RECORDS,
                decreases cnt - m,
            {
                let mapping = self.queries[i].mappings[m];
                proof {
                    assert(qs[i as int].mappings@[m as int] == mapping);
                    assert(qs[i as int].mappings@.take(m + 1).drop_last() =~= qs[
                        i as int].mappings@.take(m as int));
                    assert(qs[i as int].mappings@.take(m + 1).last() == mapping);
                }
                let ghost seg = segment_size as int;
                let ghost pre_bins = self.strain_coverage_bins@;
                let bin64: u64 = mapping.position / segment_size;
                let rid = mapping.reference_id;
                let blen = self.strain_coverage_bins[rid - 1].len();
                if bin64 < blen as u64 {
                    let bin_number = bin64 as usize;
                    let cur = self.strain_coverage_bins[rid - 1][bin_number];
                    self.strain_coverage_bins[rid - 1][bin_number] = cur + 1;
                }
                proof {
                    assert(bin64 as int == mapping.position as int / seg);
                    assert forall|r: int, b: int|
                        0 <= r < self.strain_coverage_bins@.len() && 0 <= b
                            < self.strain_coverage_bins@[r]@.len()
                        implies #[trigger] self.strain_coverage_bins@[r]@[b] == bin_hits(
                        qs.take(i as int),
                        r + 1,
                        b,
                        seg,
                    ) + map_bin_hits(qs[i as int].mappings@.take(m + 1), r + 1, b, seg) by {
                        if r == rid - 1 && b == bin64 as int && (bin64 as int) < pre_bins[rid
                            - 1]@.len() {
                            assert(self.strain_coverage_bins@[r]@[b] == pre_bins[r]@[b] + 1);
                        } else {
                            assert(self.strain_coverage_bins@[r]@[b] == pre_bins[r]@[b]);
                            if r + 1 == rid {
                                assert(b != mapping.position as int / seg);
                            }
                        }
                    }
                }
                m = m + 1;
            }
            proof {
                assert(qs[i as int].mappings@.take(cnt as int) =~= qs[i as int].mappings@);
            }
            i = i + 1;
        }
        proof {
            assert(qs.take(n as int) =~= qs);
        }
    }

    /// Derives each reference's coverage fraction, in millionths: the share
    /// of its bins that received at least one hit.
    #[verifier::loop_isolation(false)]
    pub fn calculate_coverage(&mut self)
        requires
            old(self).wf(),
        ensures
            final(self).wf(),
            final(self).references@ == old(self).references@,
            final(self).queries@ == old(self).queries@,
            final(self).query_id_2_name@ == old(self).query_id_2_name@,
            final(self).strain_abundance@ == old(self).strain_abundance@,
            final(self).strain_coverage_bins@ == old(self).strain_coverage_bins@,
            final(self).eqb == old(self).eqb,
            final(self).read_cnt == old(self).read_cnt,
            final(self).unmapping_reads == old(self).unmapping_reads,
            final(self).strain_coverage@.len() == old(self).strain_coverage@.len(),
            forall|r: int|
                0 <= r < final(self).strain_coverage@.len() && old(
                    self,
                ).strain_coverage_bins@[r]@.len() > 0 ==> #[trigger] final(self).strain_coverage@[r]
                    == count_nonzero(old(self).strain_coverage_bins@[r]@) * SCALE / (old(
                    self,
                ).strain_coverage_bins@[r]@.len() as int),
    {
        let n = self.strain_coverage_bins.len();
        let mut i: usize = 0;
        while i < n
            invariant
                0 <= i <= n,
                n == self.strain_coverage_bins@.len(),
                self.queries@ == old(self).queries@,
                self.references@ == old(self).references@,
                self.query_id_2_name@ == old(self).query_id_2_name@,
                self.strain_abundance@ == old(self).strain_abundance@,
                self.strain_coverage_bins@ == old(self).strain_coverage_bins@,
                self.read_cnt == old(self).read_cnt,
                self.unmapping_reads == old(self).unmapping_reads,
                self.eqb == old(self).eqb,
                self.strain_coverage@.len() == old(self).strain_coverage@.len(),
                forall|r: int|
                    i <= r < self.strain_coverage@.len() ==> #[trigger] self.strain_coverage@[r]
                        == old(self).strain_coverage@[r],
                forall|r: int|
                    0 <= r < i && old(self).strain_coverage_bins@[r]@.len() > 0
                        ==> #[trigger] self.strain_coverage@[r] == count_nonzero(
                        old(self).strain_coverage_bins@[r]@,
                    ) * SCALE / (old(self).strain_coverage_bins@[r]@.len() as int),
                forall|r: int|
                    0 <= r < self.strain_coverage@.len() ==> #[trigger] self.strain_coverage@[r]
                        <= SCALE,
            decreases n - i,
        {
            let bins = &self.strain_coverage_bins[i];
            let blen = bins.len();
            let mut covered: u64 = 0;
            let mut j: usize = 0;
            while j < blen
                invariant
                    0 <= j <= blen,
                    blen == bins@.len(),
                    bins == self.strain_coverage_bins@[i as int],
                    0 <= i < self.strain_coverage_bins@.len(),
                    covered == count_nonzero(bins@.take(j as int)),
                    covered <= j,
                decreases blen - j,
            {
                proof {
                    assert(bins@.take(j + 1).drop_last() =~= bins@.take(j as int));
                }
                if bins[j] > 0 {
                    covered = covered + 1;
                }
                j = j + 1;
            }
            proof {
                assert(bins@.take(bins@.len() as int) =~= bins@);
            }
            if blen > 0 {
                proof {
                    assert(covered * SCALE <= blen * SCALE) by (nonlinear_arith)
                        requires covered <= blen;
                    vstd::arithmetic::div_mod::lemma_div_multiples_vanish(
                        SCALE as int,
                        blen as int,
                    );
                    vstd::arithmetic::div_mod::lemma_div_is_ordered(
                        (covered * SCALE) as int,
                        (blen * SCALE) as int,
                        blen as int,
                    );
                }
                let cov = covered * crate::SCALE / (blen as u64);
                self.strain_coverage[i] = cov;
            } else {
                self.strain_coverage[i] = 0;
            }
            i = i + 1;
        }
    }
}

} // verus!

verus! {

/// The pipeline's tables are exactly what the SAM text dictates: the
/// references are the `@SQ` lines' (SN, LN) pairs in order, the read names
/// are the record lines' distinct query names in first-occurrence order,
/// and each read's mappings are the transformed mapped records bearing its
/// name.
pub open spec fn ingested_from(c: Cedar, data: Seq<u8>, method: Method) -> bool {
    let lines = crate::util::split_bytes(data, crate::readers::B_NL);
    &&& c.references@.len() == crate::readers::header_refs(lines).len()
    &&& forall|k: int|
        0 <= k < c.references@.len() ==> (#[trigger] c.references@[k]).ref_name@
            == crate::readers::header_refs(lines)[k].0 && c.references@[k].ref_len as int
            == crate::readers::header_refs(lines)[k].1
    &&& crate::util::views(c.query_id_2_name@) == crate::readers::record_names(lines)
    &&& forall|x: int|
        0 <= x < c.queries@.len() ==> (#[trigger] c.queries@[x]).mappings@
            == crate::readers::read_mappings(lines, c.references@, method, c.query_id_2_name@[x]@)
}

impl Cedar {
    /// Ingests a whole SAM text: builds the reference and read tables,
    /// seeds the per-strain counts and equivalence classes, fills the
    /// coverage bins and derives each reference's coverage fraction.
    #[verifier::loop_isolation(false)]
    pub fn load_mapping_info(&mut self, data: &[u8], segment_size: u64, method: Method) -> (r:
        Result<Stats, IngestError>)
        requires
            old(self).references@.len() == 0,
            old(self).queries@.len() == 0,
            old(self).eqb.count_vec@.len() == 0,
            old(self).eqb.total_count == 0,
            old(self).eqb.total_entries == 0,
            old(self).eqb.wf(),
            old(self).eqb.active_,
            segment_size >= 1,
        ensures
            match r {
                Ok(stats) => {
                    &&& final(self).wf()
                    &&& final(self).read_cnt == final(self).queries@.len()
                    &&& stats.total_read_cnt == final(self).queries@.len()
                    &&& stats.total_unmapped_reads == crate::readers::count_unmapped(
                        final(self).queries@,
                    )
                    &&& final(self).unmapping_reads == crate::readers::count_unmapped(
                        final(self).queries@,
                    )
                    &&& final(self).eqb.total_count == crate::readers::count_mapped(
                        final(self).queries@,
                    )
                    &&& ingested_from(*final(self), data@, method)
                },
                Err(_) => true,
            },
    {
        let parsed = match read_initial_alignments(data, method) {
            Ok(x) => x,
            Err(e) => {
                return Err(e);
            },
        };
        let (refs, queries, names) = parsed;
        self.references = refs;
        self.queries = queries;
        self.query_id_2_name = names;
        let n = self.references.len();
        self.strain_abundance = Vec::new();
        self.strain_coverage = Vec::new();
        self.strain_coverage_bins = Vec::new();
        let mut i: usize = 0;
        while i < n
            invariant
                0 <= i <= n,
                n == self.references@.len(),
                self.strain_abundance@.len() == i,
                self.strain_coverage@.len() == i,
                self.strain_coverage_bins@.len() == i,
                forall|r: int| 0 <= r < i ==> #[trigger] self.strain_abundance@[r] == 0,
                forall|r: int| 0 <= r < i ==> #[trigger] self.strain_coverage@[r] == 0,
                forall|r: int|
                    0 <= r < i ==> (#[trigger] self.strain_coverage_bins@[r])@.len()
                        <= crate::MAX_REF_LEN + 1,
                forall|r: int, b: int|
                    0 <= r < i && 0 <= b < self.strain_coverage_bins@[r]@.len()
                        ==> #[trigger] self.strain_coverage_bins@[r]@[b] == 0,
                self.references@ == parsed.0@,
                self.queries@ == parsed.1@,
                self.query_id_2_name@ == parsed.2@,
                self.eqb == old(self).eqb,
            decreases n - i,
        {
            let ref_len = self.references[i].ref_len;
            proof {
                vstd::arithmetic::div_mod::lemma_div_is_ordered_by_denominator(
                    ref_len as int,
                    1,
                    segment_size as int,
                );
            }
            let bin_cnt = (ref_len / segment_size + 1) as usize;
            let mut bins: Vec<u64> = Vec::new();
            let mut b: usize = 0;
            while b < bin_cnt
                invariant
                    0 <= b <= bin_cnt,
                    bins@.len() == b,
                    forall|k: int| 0 <= k < b ==> #[trigger] bins@[k] == 0,
                decreases bin_cnt - b,
            {
                bins.push(0);
                b = b + 1;
            }
            self.strain_abundance.push(0);
            self.strain_coverage.push(0);
            self.strain_coverage_bins.push(bins);
            i = i + 1;
        }
        let stats = self.process_reads();
        self.read_cnt = stats.get_total_read_cnt();
        self.unmapping_reads = stats.get_total_unmapped_reads();
        self.update_bins(segment_size);
        self.calculate_coverage();
        Ok(stats)
    }
}

} // verus!

verus! {

/// Number of positions in a target list whose strain is currently valid.
pub open spec fn valid_occurrences(tgts: Seq<usize>, valid: Seq<bool>) -> int
    decreases tgts.len(),
{
    if tgts.len() == 0 {
        0
    } else {
        valid_occurrences(tgts.drop_last(), valid) + if tgts.last() < valid.len() && valid[tgts.last() as int] {
            1int
        } else {
            0int
        }
    }
}

/// Strain `i` has unique support: some equivalence class's only valid
/// target occurrence is `i`.
pub open spec fn unique_support(
    classes: Seq<(TargetGroup, crate::equivalence_class_builder::TGValue)>,
    valid: Seq<bool>,
    i: int,
) -> bool {
    exists|c: int|
        0 <= c < classes.len() && valid_occurrences(#[trigger] classes[c].0.tgts@, valid) == 1
            && classes[c].0.tgts@.contains(i as usize)
}

/// Whether a `u64` occurs in a vector.
fn contains_u64(v: &Vec<u64>, x: u64) -> (r: bool)
    ensures
        r == v@.contains(x),
{
    let mut i: usize = 0;
    while i < v.len()
        invariant
            0 <= i <= v@.len(),
            forall|k: int| 0 <= k < i ==> v@[k] != x,
        decreases v.len() - i,
    {
        if v[i] == x {
            return true;
        }
        i = i + 1;
    }
    proof {
        if v@.contains(x) {
            let k = choose|k: int| 0 <= k < v@.len() && v@[k] == x;
            assert(false);
        }
    }
    false
}

impl Cedar {
    /// Marks the strains that some equivalence class supports uniquely: the
    /// class's only valid target occurrence is that strain.
    #[verifier::loop_isolation(false)]
    #[verifier::rlimit(100)]
    fn find_unique_refs(&self, valid: &Vec<bool>) -> (r: Vec<bool>)
        requires
            self.wf(),
            valid@.len() == self.references@.len() + 1,
        ensures
            r@.len() == valid@.len(),
            forall|x: int|
                0 <= x < r@.len() ==> #[trigger] r@[x] == (valid@[x] && unique_support(
                    self.eqb.count_vec@,
                    valid@,
                    x,
                )),
    {
        let n = self.references.len();
        let ghost valid0 = valid@;
        let mut unique_refs: Vec<bool> = Vec::new();
        let mut u: usize = 0;
        while u < n + 1
            invariant
                0 <= u <= n + 1,
                unique_refs@.len() == u,
                forall|k: int| 0 <= k < u ==> #[trigger] unique_refs@[k] == false,
            decreases n + 1 - u,
        {
            unique_refs.push(false);
            u = u + 1;
        }
        let ghost classes = self.eqb.count_vec@;
        let nclasses = self.eqb.count_vec.len();
        let mut c: usize = 0;
        while c < nclasses
            invariant
                0 <= c <= nclasses,
                nclasses == classes.len(),
                self.eqb.count_vec@ == classes,
                valid@ == valid0,
                valid@.len() == n + 1,
                n == self.references@.len(),
                unique_refs@.len() == n + 1,
                forall|x: int|
                    0 <= x < n + 1 ==> #[trigger] unique_refs@[x] == (valid0[x] && exists|cc: int|
                        0 <= cc < c && valid_occurrences(
                            #[trigger] classes[cc].0.tgts@,
                            valid0,
                        ) == 1 && classes[cc].0.tgts@.contains(x as usize)),
            decreases nclasses - c,
        {
            let tg = &self.eqb.count_vec[c].0;
            let csize = tg.tgts.len();
            let mut eq_valids: Vec<usize> = Vec::new();
            let mut j: usize = 0;
            while j < csize
                invariant
                    0 <= j <= csize,
                    csize == tg.tgts@.len(),
                    tg == classes[c as int].0,
                    0 <= c < classes.len(),
                    self.eqb.count_vec@ == classes,
                    valid@ == valid0,
                    valid@.len() == n + 1,
                    n == self.references@.len(),
                    eq_valids@.len() == valid_occurrences(tg.tgts@.take(j as int), valid0),
                    forall|k: int|
                        0 <= k < eq_valids@.len() ==> exists|p: int|
                            0 <= p < j && tg.tgts@[p] == #[trigger] eq_valids@[k]
                                && valid0[tg.tgts@[p] as int],
                    forall|p: int|
                        0 <= p < j && valid0[tg.tgts@[p] as int] ==> eq_valids@.contains(
                            #[trigger] tg.tgts@[p],
                        ),
                decreases csize - j,
            {
                proof {
                    assert(tg.tgts@.take(j + 1).drop_last() =~= tg.tgts@.take(j as int));
                    assert(tg.tgts@.take(j + 1).last() == tg.tgts@[j as int]);
                }
                let tgt = tg.tgts[j];
                proof {
                    assert(1 <= tgt <= n);
                }
                let ghost pre_ev = eq_valids@;
                if valid[tgt] {
                    eq_valids.push(tgt);
                }
                proof {
                    assert forall|p: int|
                        0 <= p < j + 1 && valid0[tg.tgts@[p] as int] implies eq_valids@.contains(
                        #[trigger] tg.tgts@[p],
                    ) by {
                        if p < j {
                            assert(pre_ev.contains(tg.tgts@[p]));
                            let k = choose|k: int|
                                0 <= k < pre_ev.len() && pre_ev[k] == tg.tgts@[p];
                            assert(eq_valids@[k] == tg.tgts@[p]);
                        } else {
                            assert(eq_valids@.last() == tgt);
                        }
                    }
                    assert forall|k: int| 0 <= k < eq_valids@.len() implies exists|p: int|
                        0 <= p < j + 1 && tg.tgts@[p] == #[trigger] eq_valids@[k]
                            && valid0[tg.tgts@[p] as int] by {
                        if k < pre_ev.len() {
                            assert(pre_ev[k] == eq_valids@[k]);
                        } else {
                            assert(eq_valids@[k] == tgt);
                            assert(tg.tgts@[j as int] == eq_valids@[k]
                                && valid0[tg.tgts@[j as int] as int]);
                        }
                    }
                }
                j = j + 1;
            }
            proof {
                assert(tg.tgts@.take(tg.tgts@.len() as int) =~= tg.tgts@);
            }
            let ghost pre_u = unique_refs@;
            if eq_valids.len() == 1 {
                let the_ref = eq_valids[0];
                proof {
                    assert(exists|p: int|
                        0 <= p < tg.tgts@.len() && tg.tgts@[p] == eq_valids@[0]
                            && valid0[tg.tgts@[p] as int]);
                }
                unique_refs[the_ref] = true;
            }
            proof {
                assert(eq_valids@.len() == valid_occurrences(tg.tgts@, valid0));
                assert forall|x: int|
                    0 <= x < n + 1 implies #[trigger] unique_refs@[x] == (valid0[x] && exists|
                    cc: int|
                    0 <= cc < c + 1 && valid_occurrences(#[trigger] classes[cc].0.tgts@, valid0)
                        == 1 && classes[cc].0.tgts@.contains(x as usize)) by {
                    if unique_refs@[x] {
                        if pre_u[x] {
                            let cc = choose|cc: int|
                                0 <= cc < c && valid_occurrences(
                                    #[trigger] classes[cc].0.tgts@,
                                    valid0,
                                ) == 1 && classes[cc].0.tgts@.contains(x as usize);
                            assert(valid_occurrences(classes[cc].0.tgts@, valid0) == 1
                                && classes[cc].0.tgts@.contains(x as usize));
                        } else {
                            // newly marked: this class's only valid occurrence is x
                            assert(eq_valids@.len() == 1 && x == eq_valids@[0]);
                            let p = choose|p: int|
                                0 <= p < tg.tgts@.len() && tg.tgts@[p] == eq_valids@[0]
                                    && valid0[tg.tgts@[p] as int];
                            assert(classes[c as int].0.tgts@.contains(x as usize));
                            assert(valid0[x]);
                        }
                    } else {
                        assert(!pre_u[x]);
                        if valid0[x] && exists|cc: int|
                            0 <= cc < c + 1 && valid_occurrences(
                                #[trigger] classes[cc].0.tgts@,
                                valid0,
                            ) == 1 && classes[cc].0.tgts@.contains(x as usize) {
                            let cc = choose|cc: int|
                                0 <= cc < c + 1 && valid_occurrences(
                                    #[trigger] classes[cc].0.tgts@,
                                    valid0,
                                ) == 1 && classes[cc].0.tgts@.contains(x as usize);
                            if cc == c {
                                let p = choose|p: int|
                                    0 <= p < classes[cc].0.tgts@.len() && classes[cc].0.tgts@[p]
                                        == x as usize;
                                assert(valid0[tg.tgts@[p] as int]);
                                assert(eq_valids@.contains(tg.tgts@[p]));
                                assert(eq_valids@.len() == 1);
                                assert(eq_valids@[0] == x as usize);
                                assert(unique_refs@[x]);
                            }
                            assert(false);
                        }
                    }
                }
            }
            c = c + 1;
        }
        unique_refs
    }
}

} // verus!

verus! {

/// Number of valid strains in a validity map (slot 0 is the reserved none).
pub open spec fn count_valid(s: Seq<bool>) -> int
    decreases s.len(),
{
    if s.len() <= 1 {
        0
    } else {
        count_valid(s.drop_last()) + if s.last() {
            1int
        } else {
            0int
        }
    }
}

impl Cedar {
    /// One pruning pass over the current validity map: every valid strain
    /// without unique read support is a removal candidate (a strain some
    /// class supports uniquely is never one, whatever its count), a greedy
    /// set cover over the ambiguous classes decides which candidates to
    /// retain, and the rest are invalidated. Validity only shrinks,
    /// non-candidates keep their validity, and the returned flag says
    /// whether the pass changed the number of valid strains.
    #[verifier::loop_isolation(false)]
    #[verifier::rlimit(100)]
    pub fn apply_set_cover(
        &self,
        strain_cnt: &Vec<u64>,
        strain_valid: Vec<bool>,
        strain_potentially_removable: Vec<bool>,
        min_cnt: u64,
        can_help: bool,
    ) -> (r: (bool, Vec<bool>, Vec<bool>))
        requires
            self.wf(),
            strain_cnt@.len() == self.references@.len() + 1,
            strain_valid@.len() == self.references@.len() + 1,
            strain_potentially_removable@.len() == self.references@.len() + 1,
        ensures
            r.1@.len() == strain_valid@.len(),
            r.2@.len() == strain_valid@.len(),
            forall|i: int| 0 <= i < r.1@.len() ==> (#[trigger] r.1@[i] ==> strain_valid@[i]),
            forall|x: int|
                1 <= x <= self.references@.len() ==> #[trigger] r.2@[x] == (strain_valid@[x]
                    && !unique_support(self.eqb.count_vec@, strain_valid@, x)),
            forall|x: int|
                1 <= x <= self.references@.len() && !r.2@[x] ==> #[trigger] r.1@[x]
                    == strain_valid@[x],
            forall|i: int|
                1 <= i <= self.references@.len() && strain_valid@[i] && unique_support(
                    self.eqb.count_vec@,
                    strain_valid@,
                    i,
                ) ==> #[trigger] r.1@[i],
            r.0 == (count_valid(strain_valid@) != count_valid(r.1@)),
    {
        let n = self.references.len();
        let mut valid = strain_valid;
        let mut removable = strain_potentially_removable;
        let ghost valid0 = valid@;
        // protect strains with unique support; every other valid strain is a
        // candidate, whatever its count
        let unique_refs = self.find_unique_refs(&valid);
        let mut previously_valid: u64 = 0;
        let mut i2: usize = 1;
        while i2 < n + 1
            invariant
                1 <= i2 <= n + 1,
                n == self.references@.len(),
                valid@ == valid0,
                unique_refs@.len() == n + 1,
                removable@.len() == n + 1,
                previously_valid == count_valid(valid0.take(i2 as int)),
                previously_valid < i2,
                forall|x: int|
                    0 <= x < n + 1 ==> #[trigger] unique_refs@[x] == (valid0[x] && unique_support(
                        self.eqb.count_vec@,
                        valid0,
                        x,
                    )),
                forall|x: int|
                    1 <= x < i2 ==> #[trigger] removable@[x] == (valid0[x] && !unique_refs@[x]),
            decreases n + 1 - i2,
        {
            proof {
                assert(valid0.take(i2 + 1).drop_last() =~= valid0.take(i2 as int));
                assert(valid0.take(i2 + 1).last() == valid0[i2 as int]);
            }
            if valid[i2] {
                let uq = unique_refs[i2];
                removable[i2] = !uq;
                previously_valid = previously_valid + 1;
            } else {
                removable[i2] = false;
            }
            i2 = i2 + 1;
        }
        // collect, for every candidate strain, the ambiguous classes it
        // occurs in; classes are numbered densely as they first qualify
        let nclasses = self.eqb.count_vec.len();
        proof {
            crate::equivalence_class_builder::lemma_counts_len(self.eqb.count_vec@);
        }
        let mut ref_2_eqset: Vec<Vec<u64>> = Vec::new();
        let mut z: usize = 0;
        while z < n + 1
            invariant
                0 <= z <= n + 1,
                ref_2_eqset@.len() == z,
                forall|k: int| 0 <= k < z ==> (#[trigger] ref_2_eqset@[k])@.len() == 0,
            decreases n + 1 - z,
        {
            ref_2_eqset.push(Vec::new());
            z = z + 1;
        }
        let mut next_id: u64 = 0;
        let mut c: usize = 0;
        while c < nclasses
            invariant
                0 <= c <= nclasses,
                nclasses == self.eqb.count_vec@.len(),
                nclasses <= MAX_RECORDS,
                n == self.references@.len(),
                valid@ == valid0,
                removable@.len() == n + 1,
                ref_2_eqset@.len() == n + 1,
                next_id <= c,
                forall|r: int|
                    0 <= r < n + 1 ==> (#[trigger] ref_2_eqset@[r])@.len() <= c,
                forall|r: int, k: int|
                    0 <= r < n + 1 && 0 <= k < ref_2_eqset@[r]@.len() ==> 1
                        <= #[trigger] ref_2_eqset@[r]@[k] <= next_id,
                forall|r: int, k1: int, k2: int|
                    0 <= r < n + 1 && 0 <= k1 < k2 < ref_2_eqset@[r]@.len()
                        ==> #[trigger] ref_2_eqset@[r]@[k1] != #[trigger] ref_2_eqset@[r]@[k2],
            decreases nclasses - c,
        {
            let tg = &self.eqb.count_vec[c].0;
            let csize = tg.tgts.len();
            let mut total_valid: u64 = 0;
            let mut removable_cnt: u64 = 0;
            let mut j: usize = 0;
            while j < csize
                invariant
                    0 <= j <= csize,
                    csize == tg.tgts@.len(),
                    tg == self.eqb.count_vec@[c as int].0,
                    0 <= c < self.eqb.count_vec@.len(),
                    n == self.references@.len(),
                    valid@ == valid0,
                    removable@.len() == n + 1,
                    total_valid <= j,
                    removable_cnt <= j,
                decreases csize - j,
            {
                let tgt = tg.tgts[j];
                proof {
                    assert(1 <= tgt <= n);
                }
                if valid[tgt] {
                    total_valid = total_valid + 1;
                }
                if removable[tgt] {
                    removable_cnt = removable_cnt + 1;
                }
                j = j + 1;
            }
            if removable_cnt >= total_valid {
                let ghost pre_sets = ref_2_eqset@;
                let ghost nid0 = next_id;
                let mut assigned = false;
                let mut seen: Vec<bool> = Vec::new();
                let mut z3: usize = 0;
                while z3 < n + 1
                    invariant
                        0 <= z3 <= n + 1,
                        seen@.len() == z3,
                        forall|k: int| 0 <= k < z3 ==> #[trigger] seen@[k] == false,
                    decreases n + 1 - z3,
                {
                    seen.push(false);
                    z3 = z3 + 1;
                }
                let mut j2: usize = 0;
                while j2 < csize
                    invariant
                        0 <= j2 <= csize,
                        csize == tg.tgts@.len(),
                        tg == self.eqb.count_vec@[c as int].0,
                        0 <= c < self.eqb.count_vec@.len(),
                        n == self.references@.len(),
                        valid@ == valid0,
                        removable@.len() == n + 1,
                        seen@.len() == n + 1,
                        ref_2_eqset@.len() == n + 1,
                                nclasses <= MAX_RECORDS,
                        assigned == (next_id == nid0 + 1),
                        !assigned ==> next_id == nid0,
                        next_id <= c + 1,
                        nid0 <= c,
                        forall|r: int|
                            0 <= r < n + 1 && !(#[trigger] seen@[r]) ==> ref_2_eqset@[r]
                                == pre_sets[r],
                        forall|r: int|
                            0 <= r < n + 1 && #[trigger] seen@[r] ==> {
                                &&& ref_2_eqset@[r]@.len() == pre_sets[r]@.len() + 1
                                &&& ref_2_eqset@[r]@.drop_last() == pre_sets[r]@
                                &&& ref_2_eqset@[r]@.last() == next_id
                                &&& next_id == nid0 + 1
                            },
                        forall|r: int|
                            0 <= r < n + 1 ==> (#[trigger] pre_sets[r])@.len() <= c,
                        forall|r: int, k: int|
                            0 <= r < n + 1 && 0 <= k < pre_sets[r]@.len() ==> 1
                                <= #[trigger] pre_sets[r]@[k] <= nid0,
                        forall|r: int, k1: int, k2: int|
                            0 <= r < n + 1 && 0 <= k1 < k2 < pre_sets[r]@.len()
                                ==> #[trigger] pre_sets[r]@[k1] != #[trigger] pre_sets[r]@[k2],
                    decreases csize - j2,
                {
                    let tgt = tg.tgts[j2];
                    proof {
                        assert(1 <= tgt <= n);
                    }
                    if valid[tgt] && removable[tgt] && !seen[tgt] {
                        if !assigned {
                            next_id = next_id + 1;
                            assigned = true;
                        }
                        let ghost pre_r = ref_2_eqset@[tgt as int]@;
                        ref_2_eqset[tgt].push(next_id);
                        seen[tgt] = true;
                        proof {
                            assert(ref_2_eqset@[tgt as int]@.drop_last() =~= pre_r);
                        }
                    }
                    j2 = j2 + 1;
                }
                proof {
                    assert forall|r: int|
                        0 <= r < n + 1 implies (#[trigger] ref_2_eqset@[r])@.len() <= c + 1 by {
                        if seen@[r] {
                            assert(ref_2_eqset@[r]@.len() == pre_sets[r]@.len() + 1);
                        } else {
                            assert(ref_2_eqset@[r] == pre_sets[r]);
                        }
                        assert(pre_sets[r]@.len() <= c);
                    }
                    assert forall|r: int, k: int|
                        0 <= r < n + 1 && 0 <= k < ref_2_eqset@[r]@.len() implies 1
                        <= #[trigger] ref_2_eqset@[r]@[k] <= next_id by {
                        if seen@[r] {
                            if k < pre_sets[r]@.len() {
                                assert(ref_2_eqset@[r]@.drop_last()[k] == ref_2_eqset@[r]@[k]);
                                assert(1 <= pre_sets[r]@[k] <= nid0);
                            } else {
                                assert(ref_2_eqset@[r]@[k] == next_id);
                                assert(next_id >= 1);
                            }
                        } else {
                            assert(ref_2_eqset@[r] == pre_sets[r]);
                            assert(1 <= pre_sets[r]@[k] <= nid0);
                        }
                    }
                    assert forall|r: int, k1: int, k2: int|
                        0 <= r < n + 1 && 0 <= k1 < k2 < ref_2_eqset@[r]@.len()
                        implies #[trigger] ref_2_eqset@[r]@[k1]
                        != #[trigger] ref_2_eqset@[r]@[k2] by {
                        if seen@[r] {
                            if k2 < pre_sets[r]@.len() {
                                assert(ref_2_eqset@[r]@.drop_last()[k1] == ref_2_eqset@[r]@[k1]);
                                assert(ref_2_eqset@[r]@.drop_last()[k2] == ref_2_eqset@[r]@[k2]);
                                assert(pre_sets[r]@[k1] != pre_sets[r]@[k2]);
                            } else {
                                assert(ref_2_eqset@[r]@.drop_last()[k1] == ref_2_eqset@[r]@[k1]);
                                assert(pre_sets[r]@[k1] <= nid0);
                                assert(ref_2_eqset@[r]@[k2] == next_id);
                            }
                        } else {
                            assert(ref_2_eqset@[r] == pre_sets[r]);
                            assert(pre_sets[r]@[k1] != pre_sets[r]@[k2]);
                        }
                    }
                }
            }
            c = c + 1;
        }
        // run the cover over the candidate strains that occur in any
        // ambiguous class
        let mut sets: Vec<Vec<u64>> = Vec::new();
        let mut weights: Vec<u64> = Vec::new();
        let mut set_cover_id_2_ref: Vec<usize> = Vec::new();
        let mut any_sets = false;
        let mut r2: usize = 1;
        while r2 < n + 1
            invariant
                1 <= r2 <= n + 1,
                n == self.references@.len(),
                self.wf(),
                ref_2_eqset@.len() == n + 1,
                sets@.len() == weights@.len(),
                sets@.len() == set_cover_id_2_ref@.len(),
                forall|k: int| 0 <= k < sets@.len() ==> 1 <= (#[trigger] sets@[k])@.len() <= MAX_RECORDS,
                forall|k: int, m: int|
                    0 <= k < sets@.len() && 0 <= m < sets@[k]@.len() ==> 1 <= #[trigger] sets@[k]@[m]
                        <= next_id,
                forall|k: int| 0 <= k < weights@.len() ==> #[trigger] weights@[k] <= 10000,
                forall|k: int| 0 <= k < set_cover_id_2_ref@.len() ==> 1 <= #[trigger] set_cover_id_2_ref@[k] <= n,
                next_id <= MAX_RECORDS,
                forall|r: int, k: int|
                    0 <= r < n + 1 && 0 <= k < ref_2_eqset@[r]@.len() ==> 1
                        <= #[trigger] ref_2_eqset@[r]@[k] <= next_id,
                forall|r: int|
                    0 <= r < n + 1 ==> (#[trigger] ref_2_eqset@[r])@.len() <= MAX_RECORDS,
            decreases n + 1 - r2,
        {
            let set_size = ref_2_eqset[r2].len();
            if set_size > 0 {
                any_sets = true;
                let cov = self.strain_coverage[r2 - 1];
                proof {
                    vstd::arithmetic::div_mod::lemma_div_is_ordered(
                        (cov * 10000) as int,
                        (SCALE * 10000) as int,
                        SCALE as int,
                    );
                    vstd::arithmetic::div_mod::lemma_div_multiples_vanish(10000, SCALE as int);
                }
                let mw: u64 = cov * 10000 / crate::SCALE;
                let mut per_element: u64 = mw / (set_size as u64);
                proof {
                    vstd::arithmetic::div_mod::lemma_div_is_ordered_by_denominator(
                        mw as int,
                        1,
                        set_size as int,
                    );
                }
                if per_element < 1 {
                    per_element = 1;
                }
                let mut setc: Vec<u64> = Vec::new();
                let mut q: usize = 0;
                while q < set_size
                    invariant
                        0 <= q <= set_size,
                        set_size == ref_2_eqset@[r2 as int]@.len(),
                        1 <= r2 <= n,
                        ref_2_eqset@.len() == n + 1,
                        setc@ == ref_2_eqset@[r2 as int]@.take(q as int),
                    decreases set_size - q,
                {
                    setc.push(ref_2_eqset[r2][q]);
                    proof {
                        assert(setc@ =~= ref_2_eqset@[r2 as int]@.take(q + 1));
                    }
                    q = q + 1;
                }
                proof {
                    assert(setc@ =~= ref_2_eqset@[r2 as int]@);
                }
                sets.push(setc);
                weights.push(per_element);
                set_cover_id_2_ref.push(r2);
            }
            r2 = r2 + 1;
        }
        let final_covering = if any_sets {
            crate::set_covers::greedy_set_cover(&sets, &weights, next_id as usize)
        } else {
            Vec::new()
        };
        let mut remaining_refs: Vec<bool> = Vec::new();
        let mut z4: usize = 0;
        while z4 < n + 1
            invariant
                0 <= z4 <= n + 1,
                remaining_refs@.len() == z4,
            decreases n + 1 - z4,
        {
            remaining_refs.push(false);
            z4 = z4 + 1;
        }
        let mut t: usize = 0;
        while t < final_covering.len()
            invariant
                0 <= t <= final_covering@.len(),
                remaining_refs@.len() == n + 1,
                sets@.len() == set_cover_id_2_ref@.len(),
                forall|k: int| 0 <= k < final_covering@.len() ==> #[trigger] final_covering@[k] < sets@.len(),
                forall|k: int| 0 <= k < set_cover_id_2_ref@.len() ==> 1 <= #[trigger] set_cover_id_2_ref@[k] <= n,
            decreases final_covering.len() - t,
        {
            let idx = final_covering[t];
            let rr = set_cover_id_2_ref[idx];
            remaining_refs[rr] = true;
            t = t + 1;
        }
        // invalidate the candidates the cover did not retain
        let mut f: usize = 1;
        while f < n + 1
            invariant
                1 <= f <= n + 1,
                n == self.references@.len(),
                valid@.len() == n + 1,
                removable@.len() == n + 1,
                unique_refs@.len() == n + 1,
                remaining_refs@.len() == n + 1,
                forall|x: int| 0 <= x < n + 1 ==> (#[trigger] valid@[x] ==> valid0[x]),
                forall|x: int|
                    f <= x < n + 1 ==> #[trigger] valid@[x] == valid0[x],
                forall|x: int|
                    0 <= x < n + 1 ==> #[trigger] unique_refs@[x] == (valid0[x] && unique_support(
                        self.eqb.count_vec@,
                        valid0,
                        x,
                    )),
                forall|x: int|
                    1 <= x < n + 1 ==> #[trigger] removable@[x] == (valid0[x] && !unique_refs@[x]),
                forall|x: int|
                    1 <= x < f && !removable@[x] ==> #[trigger] valid@[x] == valid0[x],
            decreases n + 1 - f,
        {
            if removable[f] && !remaining_refs[f] {
                valid[f] = false;
            }
            f = f + 1;
        }
        let mut total_valid_cnt: u64 = 0;
        let mut g: usize = 1;
        while g < n + 1
            invariant
                1 <= g <= n + 1,
                valid@.len() == n + 1,
                total_valid_cnt == count_valid(valid@.take(g as int)),
                total_valid_cnt < g,
            decreases n + 1 - g,
        {
            proof {
                assert(valid@.take(g + 1).drop_last() =~= valid@.take(g as int));
                assert(valid@.take(g + 1).last() == valid@[g as int]);
            }
            if valid[g] {
                total_valid_cnt = total_valid_cnt + 1;
            }
            g = g + 1;
        }
        proof {
            assert(valid0.take((n + 1) as int) =~= valid0);
            assert(valid@.take((n + 1) as int) =~= valid@);
        }
        let new_can_help = previously_valid != total_valid_cnt;
        (new_can_help, valid, removable)
    }
}

} // verus!

verus! {

/// Sum of the counts at the currently valid positions.
pub open spec fn masked_sum(cnt: Seq<u64>, valid: Seq<bool>) -> int
    decreases cnt.len(),
{
    if cnt.len() == 0 || cnt.len() != valid.len() {
        0
    } else {
        masked_sum(cnt.drop_last(), valid.drop_last()) + if valid.last() {
            cnt.last() as int
        } else {
            0int
        }
    }
}

/// The rounded share of `SCALE` owed to the first `o` strains together:
/// their valid counts as a proportion of all valid counts, rounded down.
pub open spec fn masked_share(cnt: Seq<u64>, valid: Seq<bool>, o: int) -> int {
    masked_sum(cnt.take(o), valid.take(o)) * SCALE / masked_sum(cnt, valid)
}

/// `out` is the exact fixed-point normalisation of the masked counts: all
/// zero when the valid strains carry no mass at all, otherwise entry `k`
/// (for strain `k + 1`) is the difference of two adjacent rounded prefix
/// shares of `SCALE`, so each strain's abundance is proportional to its
/// count with rounding remainders carried forward, invalid strains get
/// zero, and the entries sum to exactly `SCALE`.
pub open spec fn normalised_shares(cnt: Seq<u64>, valid: Seq<bool>, out: Seq<u64>) -> bool {
    &&& out.len() + 1 == cnt.len()
    &&& cnt.len() == valid.len()
    &&& (masked_sum(cnt, valid) == 0 ==> forall|k: int|
        0 <= k < out.len() ==> #[trigger] out[k] == 0)
    &&& (masked_sum(cnt, valid) > 0 ==> forall|k: int|
        0 <= k < out.len() ==> #[trigger] out[k] == masked_share(cnt, valid, k + 2)
            - masked_share(cnt, valid, k + 1))
}

impl Cedar {
    /// The expectation-maximisation loop. Freezes the equivalence classes,
    /// iterates M/E updates (interleaved with the set-cover pruner) until
    /// the largest per-strain change drops to `eps` millionths or the
    /// iteration cap is reached, then normalises the surviving counts into
    /// `strain_abundance`. Afterwards the abundances sum to exactly `SCALE`,
    /// unless every strain ended invalid or weightless, in which case they
    /// are all zero. Returns the iterations used and whether the loop
    /// converged.
    #[verifier::loop_isolation(false)]
    #[verifier::rlimit(100)]
    pub fn run_em(&mut self, max_iter: u64, eps: u64, min_cnt: u64) -> (r: (u64, bool))
        requires
            old(self).wf(),
        ensures
            final(self).wf(),
            r.0 <= max_iter,
            r.1 || r.0 == max_iter,
            sum64(final(self).strain_abundance@) == SCALE || (forall|i: int|
                0 <= i < final(self).strain_abundance@.len()
                    ==> #[trigger] final(self).strain_abundance@[i] == 0),
            forall|i: int|
                0 <= i < final(self).strain_abundance@.len()
                    ==> #[trigger] final(self).strain_abundance@[i] <= SCALE,
            final(self).strain_abundance@.len() == old(self).strain_abundance@.len(),
            final(self).em_counts@.len() == old(self).strain_abundance@.len() + 1,
            final(self).em_valid@.len() == old(self).strain_abundance@.len() + 1,
            !final(self).em_valid@[0],
            normalised_shares(
                final(self).em_counts@,
                final(self).em_valid@,
                final(self).strain_abundance@,
            ),
            max_iter == 0 ==> {
                &&& final(self).em_counts@[0] == 0
                &&& forall|k: int|
                    1 <= k < final(self).em_counts@.len() ==> #[trigger] final(self).em_counts@[k]
                        == old(self).strain_abundance@[k - 1] && final(self).em_valid@[k]
            },
            final(self).references@ == old(self).references@,
            final(self).queries@ == old(self).queries@,
            final(self).query_id_2_name@ == old(self).query_id_2_name@,
            final(self).read_cnt == old(self).read_cnt,
            final(self).unmapping_reads == old(self).unmapping_reads,
    {
        let _total = self.eqb.finish();
        proof {
            assert(self.wf());
        }
        let n = self.references.len();
        let mut strain_cnt: Vec<u64> = Vec::new();
        strain_cnt.push(0);
        let mut i: usize = 0;
        while i < n
            invariant
                0 <= i <= n,
                n == self.references@.len(),
                self.strain_abundance@.len() == n,
                strain_cnt@.len() == i + 1,
                strain_cnt@[0] == 0,
                forall|k: int| 1 <= k < i + 1 ==> #[trigger] strain_cnt@[k] == self.strain_abundance@[k - 1],
                forall|k: int|
                    0 <= k < strain_cnt@.len() ==> #[trigger] strain_cnt@[k] <= SCALE * MAX_RECORDS,
            decreases n - i,
        {
            strain_cnt.push(self.strain_abundance[i]);
            i = i + 1;
        }
        proof {
            assert(strain_cnt@[0] == 0);
        }
        let mut strain_valid: Vec<bool> = Vec::new();
        let mut strain_potentially_removable: Vec<bool> = Vec::new();
        let mut new_strain_cnt: Vec<u64> = Vec::new();
        let mut z: usize = 0;
        while z < n + 1
            invariant
                0 <= z <= n + 1,
                strain_valid@.len() == z,
                strain_potentially_removable@.len() == z,
                new_strain_cnt@.len() == z,
                forall|k: int| 0 <= k < z ==> #[trigger] new_strain_cnt@[k] == 0,
                forall|k: int| 1 <= k < z ==> #[trigger] strain_valid@[k],
                forall|k: int| 0 <= k < z ==> (#[trigger] strain_valid@[k] ==> k >= 1),
            decreases n + 1 - z,
        {
            strain_valid.push(z != 0);
            strain_potentially_removable.push(false);
            new_strain_cnt.push(0);
            z = z + 1;
        }
        let mut cntr: u64 = 0;
        let mut converged = false;
        let thresholding_iter_step: u64 = 10;
        let mut can_help = true;
        let ghost em_self = *self;
        while cntr < max_iter && !converged
            invariant
                *self == em_self,
                self.wf(),
                n == self.references@.len(),
                strain_cnt@.len() == n + 1,
                strain_valid@.len() == n + 1,
                strain_potentially_removable@.len() == n + 1,
                new_strain_cnt@.len() == n + 1,
                thresholding_iter_step == 10,
                cntr <= max_iter,
                forall|k: int| 0 <= k < n + 1 ==> #[trigger] new_strain_cnt@[k] == 0,
                !strain_valid@[0],
                cntr == 0 ==> strain_cnt@[0] == 0 && forall|k: int|
                    1 <= k < n + 1 ==> #[trigger] strain_cnt@[k] == self.strain_abundance@[k - 1]
                        && strain_valid@[k],
                forall|k: int|
                    0 <= k < n + 1 ==> #[trigger] strain_cnt@[k] <= SCALE * MAX_RECORDS,
            decreases max_iter - cntr,
        {
            if cntr % thresholding_iter_step == 0 && can_help {
                let a = self.apply_set_cover(
                    &strain_cnt,
                    strain_valid,
                    strain_potentially_removable,
                    min_cnt,
                    can_help,
                );
                can_help = a.0;
                strain_valid = a.1;
                strain_potentially_removable = a.2;
            }
            // M step: distribute every class's member count over its valid
            // targets, proportionally to weight x abundance x coverage
            let nclasses = self.eqb.count_vec.len();
            let ghost classes = self.eqb.count_vec@;
            let mut c: usize = 0;
            while c < nclasses
                invariant
                    0 <= c <= nclasses,
                    *self == em_self,
                    self.wf(),
                    nclasses == classes.len(),
                    self.eqb.count_vec@ == classes,
                    n == self.references@.len(),
                    strain_cnt@.len() == n + 1,
                    strain_valid@.len() == n + 1,
                    new_strain_cnt@.len() == n + 1,
                    forall|k: int|
                        0 <= k < n + 1 ==> #[trigger] strain_cnt@[k] <= SCALE * MAX_RECORDS,
                    forall|k: int|
                        0 <= k < n + 1 ==> #[trigger] new_strain_cnt@[k] <= SCALE * entries_sum(
                            classes.take(c as int),
                        ),
                decreases nclasses - c,
            {
                proof {
                    crate::equivalence_class_builder::lemma_entries_prefix(classes, c as int);
                    crate::equivalence_class_builder::lemma_entries_prefix(classes, c + 1);
                    assert(classes.take(c + 1).drop_last() =~= classes.take(c as int));
                    assert(classes.take(c + 1).last() == classes[c as int]);
                }
                let count = self.eqb.count_vec[c].1.count;
                let csize = self.eqb.count_vec[c].0.tgts.len();
                proof {
                    assert(count >= 1);
                    assert(count * csize <= entries_sum(classes)) by {
                        crate::equivalence_class_builder::lemma_entries_sum_bound(
                            classes,
                            c as int,
                        );
                    }
                    assert(count <= count * csize) by (nonlinear_arith)
                        requires count >= 1, csize >= 1;
                    assert(count * SCALE <= MAX_RECORDS * SCALE) by (nonlinear_arith)
                        requires count <= MAX_RECORDS;
                }
                let mut tmp_read_prob: Vec<u64> = Vec::new();
                let mut denom: u128 = 0;
                let mut j: usize = 0;
                while j < csize
                    invariant
                        0 <= j <= csize,
                        *self == em_self,
                        self.wf(),
                        self.eqb.count_vec@ == classes,
                        0 <= c < classes.len(),
                        csize == classes[c as int].0.tgts@.len(),
                        csize == classes[c as int].1.combined_weights@.len(),
                        n == self.references@.len(),
                        strain_cnt@.len() == n + 1,
                        strain_valid@.len() == n + 1,
                        forall|k: int|
                            0 <= k < n + 1 ==> #[trigger] strain_cnt@[k] <= SCALE * MAX_RECORDS,
                        tmp_read_prob@.len() == j,
                        denom == sum64(tmp_read_prob@),
                        denom <= j * (SCALE * MAX_RECORDS),
                        forall|k: int|
                            0 <= k < j ==> #[trigger] tmp_read_prob@[k] <= SCALE * MAX_RECORDS,
                    decreases csize - j,
                {
                    proof {
                        assert(tmp_read_prob@.push(0u64).drop_last() =~= tmp_read_prob@);
                        assert(j * (SCALE * MAX_RECORDS) + (SCALE * MAX_RECORDS) == (j + 1) * (
                        SCALE * MAX_RECORDS)) by (nonlinear_arith);
                        assert((j + 1) * (SCALE * MAX_RECORDS) <= 0x1_0000_0000_0000_0000 * (SCALE
                            * MAX_RECORDS)) by (nonlinear_arith)
                            requires j + 1 <= 0x1_0000_0000_0000_0000;
                    }
                    let tgt = self.eqb.count_vec[c].0.tgts[j];
                    proof {
                        assert(1 <= tgt <= n);
                    }
                    if strain_valid[tgt] {
                        let w = self.eqb.count_vec[c].1.combined_weights[j];
                        let cov = self.strain_coverage[tgt - 1];
                        proof {
                            assert(w <= SCALE);
                            assert(cov <= SCALE);
                            assert((w as int) * (cov as int) <= (SCALE as int) * (SCALE as int))
                                by (nonlinear_arith)
                                requires w <= SCALE, cov <= SCALE;
                            vstd::arithmetic::div_mod::lemma_div_is_ordered(
                                (w as int) * (cov as int),
                                (SCALE as int) * (SCALE as int),
                                SCALE as int,
                            );
                            vstd::arithmetic::div_mod::lemma_div_multiples_vanish(
                                SCALE as int,
                                SCALE as int,
                            );
                        }
                        let wc: u128 = (w as u128) * (cov as u128) / (SCALE as u128);
                        let cnt_t = strain_cnt[tgt];
                        proof {
                            assert((wc as int) * (cnt_t as int) <= (SCALE as int) * (cnt_t as int))
                                by (nonlinear_arith)
                                requires wc <= SCALE, cnt_t >= 0;
                            vstd::arithmetic::div_mod::lemma_div_is_ordered(
                                (wc as int) * (cnt_t as int),
                                (SCALE as int) * (cnt_t as int),
                                SCALE as int,
                            );
                            vstd::arithmetic::div_mod::lemma_div_multiples_vanish(
                                cnt_t as int,
                                SCALE as int,
                            );
                            assert((SCALE as int) * (cnt_t as int) == (cnt_t as int) * (
                            SCALE as int)) by (nonlinear_arith);
                        }
                        let p: u128 = wc * (cnt_t as u128) / (SCALE as u128);
                        let p64: u64 = p as u64;
                        proof {
                            assert(tmp_read_prob@.push(p64).drop_last() =~= tmp_read_prob@);
                            crate::equivalence_class_builder::lemma_sum64_nonneg(tmp_read_prob@);
                        }
                        tmp_read_prob.push(p64);
                        denom = denom + (p64 as u128);
                    } else {
                        tmp_read_prob.push(0);
                    }
                    j = j + 1;
                }
                let mut j2: usize = 0;
                while j2 < csize
                    invariant
                        0 <= j2 <= csize,
                        *self == em_self,
                        self.wf(),
                        self.eqb.count_vec@ == classes,
                        0 <= c < classes.len(),
                        csize == classes[c as int].0.tgts@.len(),
                        count == classes[c as int].1.count,
                        count * SCALE <= MAX_RECORDS * SCALE,
                        n == self.references@.len(),
                        new_strain_cnt@.len() == n + 1,
                        strain_valid@.len() == n + 1,
                        tmp_read_prob@.len() == csize,
                        denom == sum64(tmp_read_prob@),
                        forall|k: int|
                            0 <= k < csize ==> #[trigger] tmp_read_prob@[k] <= SCALE * MAX_RECORDS,
                        count * csize <= entries_sum(classes),
                        entries_sum(classes.take(c + 1)) <= entries_sum(classes),
                        entries_sum(classes.take(c as int)) + count * csize == entries_sum(
                            classes.take(c + 1),
                        ),
                        entries_sum(classes) <= MAX_RECORDS,
                        entries_sum(classes.take(c as int)) >= 0,
                        forall|k: int|
                            0 <= k < n + 1 ==> #[trigger] new_strain_cnt@[k] <= SCALE * (
                            entries_sum(classes.take(c as int)) + count * j2),
                    decreases csize - j2,
                {
                    let tgt = self.eqb.count_vec[c].0.tgts[j2];
                    proof {
                        assert(1 <= tgt <= n);
                    }
                    if strain_valid[tgt] && denom > 0 {
                        let p = tmp_read_prob[j2];
                        proof {
                            crate::equivalence_class_builder::lemma_sum64_elem_bound(
                                tmp_read_prob@,
                                j2 as int,
                            );
                            assert((count as int) * (SCALE as int) * (p as int) <= (MAX_RECORDS
                                as int * SCALE as int) * (SCALE as int * MAX_RECORDS as int))
                                by (nonlinear_arith)
                                requires
                                    count * SCALE <= MAX_RECORDS * SCALE,
                                    p <= SCALE * MAX_RECORDS,
                                    count >= 0,
                                    p >= 0,
                            ;
                            assert((count as int) * (SCALE as int) * (p as int) <= (count as int)
                                * (SCALE as int) * (denom as int)) by (nonlinear_arith)
                                requires p <= denom, count >= 0;
                            vstd::arithmetic::div_mod::lemma_div_is_ordered(
                                (count as int) * (SCALE as int) * (p as int),
                                (count as int) * (SCALE as int) * (denom as int),
                                denom as int,
                            );
                            vstd::arithmetic::div_mod::lemma_div_multiples_vanish(
                                (count as int) * (SCALE as int),
                                denom as int,
                            );
                            assert((count as int) * (SCALE as int) * (denom as int) == (denom
                                as int) * ((count as int) * (SCALE as int))) by (nonlinear_arith);
                        }
                        let gain128: u128 = (count as u128) * (SCALE as u128) * (p as u128)
                            / denom;
                        let gain: u64 = gain128 as u64;
                        proof {
                            assert(gain <= count * SCALE);
                            assert(count * (j2 + 1) <= count * csize) by (nonlinear_arith)
                                requires j2 + 1 <= csize, count >= 0;
                            assert(SCALE * (entries_sum(classes.take(c as int)) + count * j2)
                                + count * SCALE == SCALE * (entries_sum(classes.take(c as int))
                                + count * (j2 + 1))) by (nonlinear_arith);
                            assert(SCALE * (entries_sum(classes.take(c as int)) + count * (j2 + 1))
                                <= SCALE * MAX_RECORDS) by (nonlinear_arith)
                                requires
                                    entries_sum(classes.take(c as int)) + count * (j2 + 1)
                                        <= MAX_RECORDS,
                            ;
                        }
                        let cur = new_strain_cnt[tgt];
                        new_strain_cnt[tgt] = cur + gain;
                    }
                    proof {
                        assert(count * j2 <= count * (j2 + 1)) by (nonlinear_arith)
                            requires count >= 0;
                        assert forall|k: int|
                            0 <= k < n + 1 implies #[trigger] new_strain_cnt@[k] <= SCALE * (
                        entries_sum(classes.take(c as int)) + count * (j2 + 1)) by {
                            assert(SCALE * (entries_sum(classes.take(c as int)) + count * j2)
                                <= SCALE * (entries_sum(classes.take(c as int)) + count * (j2
                                + 1))) by (nonlinear_arith)
                                requires count >= 0;
                        }
                    }
                    j2 = j2 + 1;
                }
                proof {
                    assert forall|k: int|
                        0 <= k < n + 1 implies #[trigger] new_strain_cnt@[k] <= SCALE
                        * entries_sum(classes.take(c + 1)) by {}
                }
                c = c + 1;
            }
            proof {
                assert(classes.take(nclasses as int) =~= classes);
                assert forall|k: int|
                    0 <= k < n + 1 implies #[trigger] new_strain_cnt@[k] <= SCALE
                    * MAX_RECORDS by {
                    assert(SCALE * entries_sum(classes) <= SCALE * MAX_RECORDS)
                        by (nonlinear_arith)
                        requires entries_sum(classes) <= MAX_RECORDS;
                }
            }
            // E step: adopt the new counts; converged when no strain moved
            // by more than eps
            converged = true;
            let mut e: usize = 0;
            while e < n + 1
                invariant
                    0 <= e <= n + 1,
                    strain_cnt@.len() == n + 1,
                    new_strain_cnt@.len() == n + 1,
                    forall|k: int|
                        0 <= k < n + 1 ==> #[trigger] new_strain_cnt@[k] <= SCALE * MAX_RECORDS
                            || k < e,
                    forall|k: int| 0 <= k < e ==> #[trigger] new_strain_cnt@[k] == 0,
                    forall|k: int|
                        0 <= k < n + 1 ==> #[trigger] strain_cnt@[k] <= SCALE * MAX_RECORDS,
                decreases n + 1 - e,
            {
                let nv = new_strain_cnt[e];
                let ov = strain_cnt[e];
                let adiff: u64 = if nv >= ov {
                    nv - ov
                } else {
                    ov - nv
                };
                if adiff > eps {
                    converged = false;
                }
                strain_cnt[e] = nv;
                new_strain_cnt[e] = 0;
                e = e + 1;
            }
            cntr = cntr + 1;
        }
        // normalise the surviving counts into the abundance vector and
        // keep the loop's final state alongside it
        proof {
            if max_iter == 0 {
                assert(cntr == 0);
                assert forall|k: int|
                    1 <= k < strain_cnt@.len() implies strain_cnt@[k] == old(
                    self,
                ).strain_abundance@[k - 1] && strain_valid@[k] by {}
            }
        }
        self.finalize_abundance(&strain_cnt, &strain_valid);
        self.em_counts = strain_cnt;
        self.em_valid = strain_valid;
        (cntr, converged)
    }
}

/// The masked sum over any prefix is at most the masked sum of the whole.
proof fn lemma_masked_prefix(cnt: Seq<u64>, valid: Seq<bool>, i: int)
    requires
        0 <= i <= cnt.len(),
        cnt.len() == valid.len(),
    ensures
        masked_sum(cnt.take(i), valid.take(i)) <= masked_sum(cnt, valid),
        masked_sum(cnt.take(i), valid.take(i)) >= 0,
    decreases cnt.len() - i,
{
    if i == cnt.len() {
        assert(cnt.take(i) =~= cnt);
        assert(valid.take(i) =~= valid);
        lemma_masked_nonneg(cnt, valid);
    } else {
        lemma_masked_prefix(cnt, valid, i + 1);
        assert(cnt.take(i + 1).drop_last() =~= cnt.take(i));
        assert(valid.take(i + 1).drop_last() =~= valid.take(i));
        lemma_masked_nonneg(cnt.take(i), valid.take(i));
    }
}

/// The masked sum is never negative.
proof fn lemma_masked_nonneg(cnt: Seq<u64>, valid: Seq<bool>)
    ensures
        masked_sum(cnt, valid) >= 0,
    decreases cnt.len(),
{
    if cnt.len() > 0 && cnt.len() == valid.len() {
        lemma_masked_nonneg(cnt.drop_last(), valid.drop_last());
    }
}

/// With every count bounded by `SCALE * MAX_RECORDS` and no more than
/// `MAX_RECORDS + 1` strains, the masked sum stays far inside `u128`.
proof fn lemma_masked_sum_bound(cnt: Seq<u64>, valid: Seq<bool>)
    requires
        forall|k: int| 0 <= k < cnt.len() ==> #[trigger] cnt[k] <= SCALE * MAX_RECORDS,
        cnt.len() <= MAX_RECORDS + 1,
    ensures
        masked_sum(cnt, valid) <= 0x1_0000_0000_0000_0000_0000_0000,
    decreases cnt.len(),
{
    lemma_masked_sum_bound_aux(cnt, valid);
    assert(cnt.len() * (SCALE * MAX_RECORDS) <= (MAX_RECORDS + 1) * (SCALE * MAX_RECORDS))
        by (nonlinear_arith)
        requires cnt.len() <= MAX_RECORDS + 1;
}

proof fn lemma_masked_sum_bound_aux(cnt: Seq<u64>, valid: Seq<bool>)
    requires
        forall|k: int| 0 <= k < cnt.len() ==> #[trigger] cnt[k] <= SCALE * MAX_RECORDS,
    ensures
        masked_sum(cnt, valid) <= cnt.len() * (SCALE * MAX_RECORDS),
    decreases cnt.len(),
{
    if cnt.len() == 0 || cnt.len() != valid.len() {
        assert(cnt.len() * (SCALE * MAX_RECORDS) >= 0) by (nonlinear_arith);
    } else {
        lemma_masked_sum_bound_aux(cnt.drop_last(), valid.drop_last());
        assert((cnt.len() - 1) * (SCALE * MAX_RECORDS) + (SCALE * MAX_RECORDS) == cnt.len() * (
        SCALE * MAX_RECORDS)) by (nonlinear_arith);
    }
}

} // verus!

verus! {

impl Cedar {
    /// Normalises the surviving per-strain counts into `strain_abundance`:
    /// every invalid strain gets zero; the valid ones share out exactly
    /// `SCALE` in proportion to their counts, remainders carried forward.
    /// When no valid strain has any mass left, all abundances are zero.
    #[verifier::loop_isolation(false)]
    #[verifier::rlimit(100)]
    fn finalize_abundance(&mut self, strain_cnt: &Vec<u64>, strain_valid: &Vec<bool>)
        requires
            old(self).wf(),
            strain_cnt@.len() == old(self).references@.len() + 1,
            strain_valid@.len() == old(self).references@.len() + 1,
            !strain_valid@[0],
            forall|k: int|
                0 <= k < strain_cnt@.len() ==> #[trigger] strain_cnt@[k] <= SCALE * MAX_RECORDS,
        ensures
            final(self).wf(),
            sum64(final(self).strain_abundance@) == SCALE || (forall|i: int|
                0 <= i < final(self).strain_abundance@.len()
                    ==> #[trigger] final(self).strain_abundance@[i] == 0),
            forall|i: int|
                0 <= i < final(self).strain_abundance@.len()
                    ==> #[trigger] final(self).strain_abundance@[i] <= SCALE,
            normalised_shares(strain_cnt@, strain_valid@, final(self).strain_abundance@),
            final(self).strain_abundance@.len() == old(self).strain_abundance@.len(),
            final(self).references@ == old(self).references@,
            final(self).queries@ == old(self).queries@,
            final(self).query_id_2_name@ == old(self).query_id_2_name@,
            final(self).strain_coverage@ == old(self).strain_coverage@,
            final(self).strain_coverage_bins@ == old(self).strain_coverage_bins@,
            final(self).eqb == old(self).eqb,
            final(self).read_cnt == old(self).read_cnt,
            final(self).unmapping_reads == old(self).unmapping_reads,
    {
        let n = self.references.len();
        let mut total_mass: u128 = 0;
        let mut s1: usize = 0;
        while s1 < n + 1
            invariant
                0 <= s1 <= n + 1,
                n <= MAX_RECORDS,
                n == self.references@.len(),
                strain_cnt@.len() == n + 1,
                strain_valid@.len() == n + 1,
                total_mass == masked_sum(
                    strain_cnt@.take(s1 as int),
                    strain_valid@.take(s1 as int),
                ),
                total_mass <= s1 * (SCALE * MAX_RECORDS),
            decreases n + 1 - s1,
        {
            proof {
                assert(strain_cnt@.take(s1 + 1).drop_last() =~= strain_cnt@.take(s1 as int));
                assert(strain_valid@.take(s1 + 1).drop_last() =~= strain_valid@.take(s1 as int));
                assert(s1 * (SCALE * MAX_RECORDS) + (SCALE * MAX_RECORDS) == (s1 + 1) * (SCALE
                    * MAX_RECORDS)) by (nonlinear_arith);
                assert((s1 + 1) * (SCALE * MAX_RECORDS) <= (MAX_RECORDS + 1) * (SCALE
                    * MAX_RECORDS)) by (nonlinear_arith)
                    requires s1 + 1 <= MAX_RECORDS + 1;
            }
            if strain_valid[s1] {
                total_mass = total_mass + (strain_cnt[s1] as u128);
            }
            s1 = s1 + 1;
        }
        proof {
            assert(strain_cnt@.take((n + 1) as int) =~= strain_cnt@);
            assert(strain_valid@.take((n + 1) as int) =~= strain_valid@);
            assert(total_mass <= 0x1_0000_0000_0000_0000_0000_0000) by (nonlinear_arith)
                requires
                    total_mass <= (n + 1) * (SCALE * MAX_RECORDS) as int,
                    n <= MAX_RECORDS,
            ;
        }
        let mut out: Vec<u64> = Vec::new();
        if total_mass == 0 {
            let mut o: usize = 0;
            while o < n
                invariant
                    0 <= o <= n,
                    out@.len() == o,
                    forall|k: int| 0 <= k < o ==> #[trigger] out@[k] == 0,
                decreases n - o,
            {
                out.push(0);
                o = o + 1;
            }
            self.strain_abundance = out;
            return ;
        }
        let mut prefix: u128 = 0;
        let mut prev_share: u128 = 0;
        proof {
            assert(strain_cnt@.take(1int).len() == 1);
            assert(strain_valid@.take(1int).len() == 1);
            assert(strain_cnt@.take(1int).drop_last() =~= Seq::<u64>::empty());
            assert(strain_valid@.take(1int).drop_last() =~= Seq::<bool>::empty());
            assert(strain_valid@.take(1int).last() == strain_valid@[0]);
            assert(masked_sum(Seq::<u64>::empty(), Seq::<bool>::empty()) == 0);
            assert(masked_sum(strain_cnt@.take(1int), strain_valid@.take(1int)) == 0);
        }
        let mut o: usize = 1;
        while o < n + 1
            invariant
                1 <= o <= n + 1,
                n == self.references@.len(),
                strain_cnt@.len() == n + 1,
                strain_valid@.len() == n + 1,
                total_mass > 0,
                total_mass == masked_sum(strain_cnt@, strain_valid@),
                total_mass <= 0x1_0000_0000_0000_0000_0000_0000,
                n <= MAX_RECORDS,
                out@.len() == o - 1,
                prefix == masked_sum(strain_cnt@.take(o as int), strain_valid@.take(o as int)),
                prefix <= total_mass,
                prev_share as int == (prefix as int) * (SCALE as int) / (total_mass as int),
                sum64(out@) == prev_share,
                prev_share <= SCALE,
                forall|k: int| 0 <= k < out@.len() ==> #[trigger] out@[k] <= SCALE,
                forall|k: int|
                    0 <= k < out@.len() ==> #[trigger] out@[k] == masked_share(
                        strain_cnt@,
                        strain_valid@,
                        k + 2,
                    ) - masked_share(strain_cnt@, strain_valid@, k + 1),
            decreases n + 1 - o,
        {
            proof {
                assert(strain_cnt@.take(o + 1).drop_last() =~= strain_cnt@.take(o as int));
                assert(strain_valid@.take(o + 1).drop_last() =~= strain_valid@.take(o as int));
                lemma_masked_prefix(strain_cnt@, strain_valid@, o + 1);
            }
            if strain_valid[o] {
                let new_prefix: u128 = prefix + (strain_cnt[o] as u128);
                proof {
                    vstd::arithmetic::div_mod::lemma_div_is_ordered(
                        (prefix as int) * (SCALE as int),
                        (new_prefix as int) * (SCALE as int),
                        total_mass as int,
                    );
                    vstd::arithmetic::div_mod::lemma_div_is_ordered(
                        (new_prefix as int) * (SCALE as int),
                        (total_mass as int) * (SCALE as int),
                        total_mass as int,
                    );
                    vstd::arithmetic::mul::lemma_mul_inequality(
                        new_prefix as int,
                        total_mass as int,
                        SCALE as int,
                    );
                    vstd::arithmetic::div_mod::lemma_div_multiples_vanish(
                        SCALE as int,
                        total_mass as int,
                    );
                }
                let new_share: u128 = new_prefix * (SCALE as u128) / total_mass;
                proof {
                    assert(out@.push(((new_share - prev_share) as u64)).drop_last() =~= out@);
                    assert(masked_sum(strain_cnt@.take(o + 1), strain_valid@.take(o + 1))
                        == new_prefix);
                    assert(new_share as int == masked_share(strain_cnt@, strain_valid@, o + 1));
                    assert(prev_share as int == masked_share(strain_cnt@, strain_valid@, o as int));
                }
                out.push((new_share - prev_share) as u64);
                prefix = new_prefix;
                prev_share = new_share;
            } else {
                proof {
                    assert(out@.push(0u64).drop_last() =~= out@);
                    assert(masked_sum(strain_cnt@.take(o + 1), strain_valid@.take(o + 1))
                        == prefix);
                    assert(masked_share(strain_cnt@, strain_valid@, o + 1) == masked_share(
                        strain_cnt@,
                        strain_valid@,
                        o as int,
                    ));
                }
                out.push(0);
            }
            o = o + 1;
        }
        proof {
            assert(strain_cnt@.take((n + 1) as int) =~= strain_cnt@);
            assert(strain_valid@.take((n + 1) as int) =~= strain_valid@);
            vstd::arithmetic::div_mod::lemma_div_multiples_vanish(
                SCALE as int,
                total_mass as int,
            );
        }
        self.strain_abundance = out;
    }
}

} // verus!

verus! {

/// A run of zero digits.
pub open spec fn zero_digits(n: int) -> Seq<u8>
    decreases n,
{
    if n <= 0 {
        Seq::empty()
    } else {
        zero_digits(n - 1).push(48u8)
    }
}

/// A millionths fraction rendered as exactly six digits.
pub open spec fn frac6(f: int) -> Seq<u8> {
    if crate::util::dec_repr(f).len() >= 6 {
        crate::util::dec_repr(f)
    } else {
        zero_digits(6 - crate::util::dec_repr(f).len()) + crate::util::dec_repr(f)
    }
}

/// One abundance line: id, name, and the abundance as a six-place decimal
/// fraction, tab separated.
pub open spec fn abundance_line(id: int, name: Seq<u8>, a: int) -> Seq<u8> {
    crate::util::dec_repr(id) + seq![9u8] + name + seq![9u8] + crate::util::dec_repr(a / (
    SCALE as int)) + seq![46u8] + frac6(a % (SCALE as int)) + seq![10u8]
}

/// The whole abundance table, one line per reference in id order.
pub open spec fn abundance_table(refs: Seq<Reference>, ab: Seq<u64>) -> Seq<u8>
    decreases refs.len(),
{
    if refs.len() == 0 || refs.len() != ab.len() {
        Seq::empty()
    } else {
        abundance_table(refs.drop_last(), ab.drop_last()) + abundance_line(
            refs.len() as int,
            refs.last().ref_name@,
            ab.last() as int,
        )
    }
}

impl Cedar {
    /// Renders the per-reference abundance estimates as the abundance
    /// table: `id<TAB>name<TAB>abundance<NL>` per reference, the abundance
    /// as a six-place decimal fraction of one.
    #[verifier::loop_isolation(false)]
    #[verifier::rlimit(100)]
    pub fn serialize_simple(&self) -> (r: Vec<u8>)
        requires
            self.wf(),
        ensures
            r@ == abundance_table(self.references@, self.strain_abundance@),
    {
        let n = self.references.len();
        let mut out: Vec<u8> = Vec::new();
        proof {
            assert(self.references@.take(0int) =~= Seq::<Reference>::empty());
            assert(out@ =~= abundance_table(
                self.references@.take(0int),
                self.strain_abundance@.take(0int),
            ));
        }
        let mut i: usize = 0;
        while i < n
            invariant
                0 <= i <= n,
                n == self.references@.len(),
                self.strain_abundance@.len() == n,
                out@ == abundance_table(
                    self.references@.take(i as int),
                    self.strain_abundance@.take(i as int),
                ),
            decreases n - i,
        {
            let ghost pre = out@;
            let id_digits = crate::util::u64_to_dec((i + 1) as u64);
            let mut k: usize = 0;
            while k < id_digits.len()
                invariant
                    0 <= k <= id_digits@.len(),
                    out@ == pre + id_digits@.take(k as int),
                decreases id_digits.len() - k,
            {
                out.push(id_digits[k]);
                proof {
                    assert(out@ =~= pre + id_digits@.take(k + 1));
                }
                k = k + 1;
            }
            proof {
                assert(id_digits@.take(id_digits@.len() as int) =~= id_digits@);
            }
            out.push(9);
            let name = &self.references[i].ref_name;
            let mut k2: usize = 0;
            while k2 < name.len()
                invariant
                    0 <= k2 <= name@.len(),
                    name == self.references@[i as int].ref_name,
                    0 <= i < self.references@.len(),
                    out@ == pre + id_digits@ + seq![9u8] + name@.take(k2 as int),
                decreases name.len() - k2,
            {
                out.push(name[k2]);
                proof {
                    assert(out@ =~= pre + id_digits@ + seq![9u8] + name@.take(k2 + 1));
                }
                k2 = k2 + 1;
            }
            proof {
                assert(name@.take(name@.len() as int) =~= name@);
            }
            out.push(9);
            let a = self.strain_abundance[i];
            let int_digits = crate::util::u64_to_dec(a / crate::SCALE);
            let mut k3: usize = 0;
            while k3 < int_digits.len()
                invariant
                    0 <= k3 <= int_digits@.len(),
                    out@ == pre + id_digits@ + seq![9u8] + name@ + seq![9u8] + int_digits@.take(
                        k3 as int,
                    ),
                    name == self.references@[i as int].ref_name,
                    0 <= i < self.references@.len(),
                decreases int_digits.len() - k3,
            {
                out.push(int_digits[k3]);
                proof {
                    assert(out@ =~= pre + id_digits@ + seq![9u8] + name@ + seq![9u8]
                        + int_digits@.take(k3 + 1));
                }
                k3 = k3 + 1;
            }
            proof {
                assert(int_digits@.take(int_digits@.len() as int) =~= int_digits@);
            }
            out.push(46);
            let frac_digits = crate::util::u64_to_dec(a % crate::SCALE);
            let mut pad: usize = 0;
            let pad_n: usize = if frac_digits.len() >= 6 {
                0
            } else {
                6 - frac_digits.len()
            };
            while pad < pad_n
                invariant
                    0 <= pad <= pad_n,
                    out@ == pre + id_digits@ + seq![9u8] + name@ + seq![9u8] + int_digits@ + seq![
                        46u8,
                    ] + zero_digits(pad as int),
                decreases pad_n - pad,
            {
                out.push(48);
                proof {
                    assert(zero_digits(pad + 1) =~= zero_digits(pad as int).push(48u8));
                    assert(out@ =~= pre + id_digits@ + seq![9u8] + name@ + seq![9u8] + int_digits@
                        + seq![46u8] + zero_digits(pad + 1));
                }
                pad = pad + 1;
            }
            let mut k4: usize = 0;
            while k4 < frac_digits.len()
                invariant
                    0 <= k4 <= frac_digits@.len(),
                    out@ == pre + id_digits@ + seq![9u8] + name@ + seq![9u8] + int_digits@ + seq![
                        46u8,
                    ] + zero_digits(pad_n as int) + frac_digits@.take(k4 as int),
                decreases frac_digits.len() - k4,
            {
                out.push(frac_digits[k4]);
                proof {
                    assert(out@ =~= pre + id_digits@ + seq![9u8] + name@ + seq![9u8] + int_digits@
                        + seq![46u8] + zero_digits(pad_n as int) + frac_digits@.take(k4 + 1));
                }
                k4 = k4 + 1;
            }
            proof {
                assert(frac_digits@.take(frac_digits@.len() as int) =~= frac_digits@);
            }
            out.push(10);
            proof {
                assert(zero_digits(pad_n as int) + frac_digits@ =~= frac6(
                    (a % crate::SCALE) as int,
                )) by {
                    if frac_digits@.len() >= 6 {
                        assert(zero_digits(0) =~= Seq::<u8>::empty());
                    }
                }
                assert(self.references@.take(i + 1).drop_last() =~= self.references@.take(
                    i as int,
                ));
                assert(self.strain_abundance@.take(i + 1).drop_last()
                    =~= self.strain_abundance@.take(i as int));
                assert(self.references@.take(i + 1).last() == self.references@[i as int]);
                assert(self.strain_abundance@.take(i + 1).last() == self.strain_abundance@[
                    i as int]);
                assert(out@ =~= abundance_table(
                    self.references@.take(i + 1),
                    self.strain_abundance@.take(i + 1),
                ));
            }
            i = i + 1;
        }
        proof {
            assert(self.references@.take(n as int) =~= self.references@);
            assert(self.strain_abundance@.take(n as int) =~= self.strain_abundance@);
        }
        out
    }
}

} // verus!

verus! {

impl Cedar {
    /// The whole estimation pipeline: ingest the SAM text, then run the
    /// expectation-maximisation loop. Returns the ingest statistics with
    /// the iterations used and whether the loop converged.
    pub fn run(&mut self, data: &[u8], max_iter: u64, eps: u64, min_cnt: u64, segment_size: u64, method: Method) -> (r: Result<(Stats, u64, bool), IngestError>)
        requires
            old(self).references@.len() == 0,
            old(self).queries@.len() == 0,
            old(self).eqb.count_vec@.len() == 0,
            old(self).eqb.total_count == 0,
            old(self).eqb.total_entries == 0,
            old(self).eqb.wf(),
            old(self).eqb.active_,
            segment_size >= 1,
        ensures
            match r {
                Ok((stats, iters, converged)) => {
                    &&& final(self).wf()
                    &&& ingested_from(*final(self), data@, method)
                    &&& iters <= max_iter
                    &&& (converged || iters == max_iter)
                    &&& (sum64(final(self).strain_abundance@) == SCALE || (forall|i: int|
                        0 <= i < final(self).strain_abundance@.len()
                            ==> #[trigger] final(self).strain_abundance@[i] == 0))
                    &&& forall|i: int|
                        0 <= i < final(self).strain_abundance@.len()
                            ==> #[trigger] final(self).strain_abundance@[i] <= SCALE
                    &&& normalised_shares(
                        final(self).em_counts@,
                        final(self).em_valid@,
                        final(self).strain_abundance@,
                    )
                    &&& !final(self).em_valid@[0]
                },
                Err(_) => true,
            },
    {
        let stats = match self.load_mapping_info(data, segment_size, method) {
            Ok(s) => s,
            Err(e) => {
                return Err(e);
            },
        };
        let (iters, converged) = self.run_em(max_iter, eps, min_cnt);
        Ok((stats, iters, converged))
    }
}

} // verus!
