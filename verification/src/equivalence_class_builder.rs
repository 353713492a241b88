//! Equivalence classes of reads. Reads whose mappings hit the same ordered
//! sequence of reference ids share one class; the class accumulates a weight
//! per target (the sum of score/reference-length contributions, in millionth
//! units) and a member count. `finish` freezes the classes and normalises
//! each weight vector so that it sums to exactly `SCALE`.
use vstd::prelude::*;

use crate::MAX_RECORDS;
use crate::SCALE;

verus! {

/// Offset basis of the 64-bit FNV-1a hash.
pub const FNV_OFFSET: u64 = 0xcbf29ce484222325;

/// Prime of the 64-bit FNV-1a hash.
pub const FNV_PRIME: u64 = 0x100000001b3;

/// Largest single-read weight contribution for one target:
/// score <= MAX_SCORE and the reference length divides it away, so
/// score * SCALE / len <= MAX_SCORE * SCALE.
pub const WEIGHT_MAX: u64 = 0xf4240_00000000;

/// FNV-1a over a sequence of reference ids, one step per id.
pub open spec fn hash_of(s: Seq<usize>) -> u64
    decreases s.len(),
{
    if s.len() == 0 {
        FNV_OFFSET
    } else {
        vstd::wrapping::u64_specs::wrapping_mul(hash_of(s.drop_last()) ^ (s.last() as u64), FNV_PRIME)
    }
}

/// Stable content hash of a target-id sequence (FNV-1a, one step per id).
pub fn calculate_hash(t: &Vec<usize>) -> (r: u64)
    ensures
        r == hash_of(t@),
{
    let mut h: u64 = FNV_OFFSET;
    let mut i: usize = 0;
    while i < t.len()
        invariant
            0 <= i <= t@.len(),
            h == hash_of(t@.take(i as int)),
        decreases t.len() - i,
    {
        h = (h ^ (t[i] as u64)).wrapping_mul(FNV_PRIME);
        proof {
            assert(t@.take(i + 1 as int).drop_last() =~= t@.take(i as int));
            assert(t@.take(i + 1 as int).last() == t@[i as int]);
        }
        i = i + 1;
    }
    proof {
        assert(t@.take(t@.len() as int) =~= t@);
    }
    h
}

/// The ordered sequence of reference ids identifying an equivalence class,
/// with its cached content hash.
pub struct TargetGroup {
    pub tgts: Vec<usize>,
    pub hash: u64,
    pub valid: bool,
}

impl TargetGroup {
    /// The cached hash matches the content.
    pub open spec fn wf(self) -> bool {
        self.hash == hash_of(self.tgts@)
    }

    pub fn new_with_tgt(tgts: Vec<usize>) -> (r: TargetGroup)
        ensures
            r.tgts@ == tgts@,
            r.valid,
            r.wf(),
    {
        let hash_value = calculate_hash(&tgts);
        TargetGroup { tgts, hash: hash_value, valid: true }
    }

    pub fn new_with_copy(other: &TargetGroup) -> (r: TargetGroup)
        ensures
            r.tgts@ == other.tgts@,
            r.hash == other.hash,
            r.valid == other.valid,
    {
        let mut tgts: Vec<usize> = Vec::new();
        let mut i: usize = 0;
        while i < other.tgts.len()
            invariant
                0 <= i <= other.tgts@.len(),
                tgts@ == other.tgts@.take(i as int),
            decreases other.tgts.len() - i,
        {
            tgts.push(other.tgts[i]);
            i = i + 1;
        }
        proof {
            assert(tgts@ =~= other.tgts@);
        }
        TargetGroup { tgts, hash: other.hash, valid: other.valid }
    }

    pub fn get_tgts(&self) -> (r: &Vec<usize>)
        ensures
            r@ == self.tgts@,
    {
        &self.tgts
    }

    pub fn get_hash(&self) -> (r: u64)
        ensures
            r == self.hash,
    {
        self.hash
    }

    /// Whether two groups name the same ordered target sequence.
    pub fn same_tgts(&self, other: &TargetGroup) -> (r: bool)
        ensures
            r == (self.tgts@ == other.tgts@),
    {
        if self.tgts.len() != other.tgts.len() {
            return false;
        }
        let mut i: usize = 0;
        while i < self.tgts.len()
            invariant
                0 <= i <= self.tgts@.len(),
                self.tgts@.len() == other.tgts@.len(),
                forall|k: int| 0 <= k < i ==> self.tgts@[k] == other.tgts@[k],
            decreases self.tgts.len() - i,
        {
            if self.tgts[i] != other.tgts[i] {
                return false;
            }
            i = i + 1;
        }
        proof {
            assert(self.tgts@ =~= other.tgts@);
        }
        true
    }
}

/// Sum of a weight vector, as an unbounded integer.
/// The rounded share of `SCALE` owed to the first `j` weights together:
/// their sum as a proportion of the whole, rounded down. The difference of
/// two adjacent shares is one weight's normalised value with the rounding
/// remainder carried forward.
pub open spec fn carried_share(w: Seq<u128>, j: int) -> int {
    sum128(w.take(j)) * SCALE / sum128(w)
}

pub open spec fn sum128(s: Seq<u128>) -> int
    decreases s.len(),
{
    if s.len() == 0 {
        0
    } else {
        sum128(s.drop_last()) + s.last()
    }
}

/// Sum of a normalised weight vector, as an unbounded integer.
pub open spec fn sum64(s: Seq<u64>) -> int
    decreases s.len(),
{
    if s.len() == 0 {
        0
    } else {
        sum64(s.drop_last()) + s.last()
    }
}

/// Every prefix sum of non-negative weights is bounded by the total.
pub proof fn lemma_sum128_prefix(s: Seq<u128>, i: int)
    requires
        0 <= i <= s.len(),
    ensures
        sum128(s.take(i)) <= sum128(s),
        sum128(s.take(i)) >= 0,
    decreases s.len() - i,
{
    if i == s.len() {
        assert(s.take(i) =~= s);
        lemma_sum128_nonneg(s);
    } else {
        lemma_sum128_prefix(s, i + 1);
        assert(s.take(i + 1).drop_last() =~= s.take(i));
        lemma_sum128_nonneg(s.take(i));
    }
}

/// A sum of unsigned weights is non-negative.
pub proof fn lemma_sum128_nonneg(s: Seq<u128>)
    ensures
        sum128(s) >= 0,
    decreases s.len(),
{
    if s.len() > 0 {
        lemma_sum128_nonneg(s.drop_last());
    }
}

/// The payload of an equivalence class: raw per-target weights (millionths),
/// the member-read count, and the normalised weights produced by `finish`.
pub struct TGValue {
    pub weights: Vec<u128>,
    pub combined_weights: Vec<u64>,
    pub count: u64,
}

impl TGValue {
    pub fn new_with_tgvalue_count(weights: Vec<u128>, count: u64) -> (r: TGValue)
        ensures
            r.weights@ == weights@,
            r.count == count,
            r.combined_weights@ == Seq::<u64>::empty(),
    {
        TGValue { weights, combined_weights: Vec::new(), count }
    }

    pub fn new_from(other: &TGValue) -> (r: TGValue)
        ensures
            r.weights@ == other.weights@,
            r.combined_weights@ == other.combined_weights@,
            r.count == other.count,
    {
        let mut weights: Vec<u128> = Vec::new();
        let mut i: usize = 0;
        while i < other.weights.len()
            invariant
                0 <= i <= other.weights@.len(),
                weights@ == other.weights@.take(i as int),
            decreases other.weights.len() - i,
        {
            weights.push(other.weights[i]);
            i = i + 1;
        }
        let mut combined_weights: Vec<u64> = Vec::new();
        let mut j: usize = 0;
        while j < other.combined_weights.len()
            invariant
                0 <= j <= other.combined_weights@.len(),
                combined_weights@ == other.combined_weights@.take(j as int),
            decreases other.combined_weights.len() - j,
        {
            combined_weights.push(other.combined_weights[j]);
            j = j + 1;
        }
        proof {
            assert(weights@ =~= other.weights@);
            assert(combined_weights@ =~= other.combined_weights@);
        }
        TGValue { weights, combined_weights, count: other.count }
    }

    pub fn get_count(&self) -> (r: u64)
        ensures
            r == self.count,
    {
        self.count
    }

    pub fn get_weights(&self) -> (r: &Vec<u128>)
        ensures
            r@ == self.weights@,
    {
        &self.weights
    }

    pub fn get_combined_weights(&self) -> (r: &Vec<u64>)
        ensures
            r@ == self.combined_weights@,
    {
        &self.combined_weights
    }

    /// Normalises the raw weights into `combined_weights` so that they sum to
    /// exactly `SCALE`. The j-th normalised weight is the difference of two
    /// rounded prefix shares, so rounding remainders are carried forward
    /// instead of lost: each target's share is proportional to its raw
    /// weight.
    pub fn normalize_aux(&mut self)
        requires
            sum128(old(self).weights@) <= 0x1000_0000_0000_0000_0000_0000_0000,
        ensures
            final(self).weights@ == old(self).weights@,
            final(self).count == old(self).count,
            final(self).combined_weights@.len() == old(self).weights@.len(),
            sum128(old(self).weights@) > 0 ==> sum64(final(self).combined_weights@) == SCALE,
            sum128(old(self).weights@) == 0 ==> sum64(final(self).combined_weights@) == 0,
            sum128(old(self).weights@) > 0 ==> forall|j: int|
                0 <= j < final(self).combined_weights@.len()
                    ==> #[trigger] final(self).combined_weights@[j] == carried_share(
                    old(self).weights@,
                    j + 1,
                ) - carried_share(old(self).weights@, j),
            sum128(old(self).weights@) == 0 ==> forall|j: int|
                0 <= j < final(self).combined_weights@.len()
                    ==> #[trigger] final(self).combined_weights@[j] == 0,
            forall|j: int|
                0 <= j < final(self).combined_weights@.len()
                    ==> #[trigger] final(self).combined_weights@[j] <= SCALE,
    {
        let mut total: u128 = 0;
        let mut i: usize = 0;
        while i < self.weights.len()
            invariant
                0 <= i <= self.weights@.len(),
                total == sum128(self.weights@.take(i as int)),
                sum128(self.weights@) <= 0x1000_0000_0000_0000_0000_0000_0000,
            decreases self.weights.len() - i,
        {
            proof {
                lemma_sum128_prefix(self.weights@, i + 1);
                assert(self.weights@.take(i + 1 as int).drop_last() =~= self.weights@.take(i as int));
                assert(self.weights@.take(i + 1 as int).last() == self.weights@[i as int]);
            }
            total = total + self.weights[i];
            i = i + 1;
        }
        proof {
            assert(self.weights@.take(self.weights@.len() as int) =~= self.weights@);
        }
        let mut combined: Vec<u64> = Vec::new();
        if total == 0 {
            let mut j: usize = 0;
            while j < self.weights.len()
                invariant
                    0 <= j <= self.weights@.len(),
                    combined@.len() == j,
                    sum64(combined@) == 0,
                    forall|k: int| 0 <= k < j ==> #[trigger] combined@[k] == 0u64,
                decreases self.weights.len() - j,
            {
                proof {
                    assert(combined@.push(0u64).drop_last() =~= combined@);
                }
                combined.push(0u64);
                j = j + 1;
            }
            self.combined_weights = combined;
            return ;
        }
        let mut prefix: u128 = 0;
        let mut prev_share: u128 = 0;
        let mut j: usize = 0;
        while j < self.weights.len()
            invariant
                0 <= j <= self.weights@.len(),
                total == sum128(self.weights@),
                total > 0,
                sum128(self.weights@) <= 0x1000_0000_0000_0000_0000_0000_0000,
                prefix == sum128(self.weights@.take(j as int)),
                prefix <= total,
                prev_share as int == (prefix as int * SCALE as int) / (total as int),
                combined@.len() == j,
                sum64(combined@) == prev_share,
                prev_share <= SCALE,
                forall|k: int| 0 <= k < j ==> #[trigger] combined@[k] <= SCALE,
                forall|k: int|
                    0 <= k < j ==> #[trigger] combined@[k] == carried_share(self.weights@, k + 1)
                        - carried_share(self.weights@, k),
            decreases self.weights.len() - j,
        {
            proof {
                lemma_sum128_prefix(self.weights@, j + 1);
                assert(self.weights@.take(j + 1 as int).drop_last() =~= self.weights@.take(j as int));
                assert(self.weights@.take(j + 1 as int).last() == self.weights@[j as int]);
            }
            let new_prefix: u128 = prefix + self.weights[j];
            let new_share: u128 = (new_prefix * (SCALE as u128)) / total;
            proof {
                vstd::arithmetic::div_mod::lemma_div_is_ordered(
                    prefix as int * SCALE as int,
                    new_prefix as int * SCALE as int,
                    total as int,
                );
                vstd::arithmetic::div_mod::lemma_div_is_ordered(
                    new_prefix as int * SCALE as int,
                    total as int * SCALE as int,
                    total as int,
                );
                vstd::arithmetic::mul::lemma_mul_inequality(
                    new_prefix as int,
                    total as int,
                    SCALE as int,
                );
                vstd::arithmetic::div_mod::lemma_div_multiples_vanish(
                    SCALE as int,
                    total as int,
                );
                assert(combined@.push((new_share - prev_share) as u64).drop_last() =~= combined@);
            }
            combined.push((new_share - prev_share) as u64);
            prefix = new_prefix;
            prev_share = new_share;
            j = j + 1;
        }
        proof {
            assert(self.weights@.take(self.weights@.len() as int) =~= self.weights@);
            vstd::arithmetic::div_mod::lemma_div_multiples_vanish(SCALE as int, total as int);
        }
        self.combined_weights = combined;
    }
}

} // verus!

use vstd::prelude::*;

verus! {

/// Sum over all classes of member count times target count: the number of
/// (read, target) pairs folded into the builder so far.
pub open spec fn entries_sum(s: Seq<(TargetGroup, TGValue)>) -> int
    decreases s.len(),
{
    if s.len() == 0 {
        0
    } else {
        entries_sum(s.drop_last()) + s.last().1.count * s.last().0.tgts@.len()
    }
}

/// Sum over all classes of the member count: the number of reads folded in.
pub open spec fn counts_sum(s: Seq<(TargetGroup, TGValue)>) -> int
    decreases s.len(),
{
    if s.len() == 0 {
        0
    } else {
        counts_sum(s.drop_last()) + s.last().1.count
    }
}

/// A single class entry is well formed: cached hash correct, weights aligned
/// with targets, at least one member, and each weight bounded by what its
/// members can have contributed.
pub open spec fn class_wf(e: (TargetGroup, TGValue)) -> bool {
    &&& e.0.wf()
    &&& e.1.weights@.len() == e.0.tgts@.len()
    &&& e.0.tgts@.len() >= 1
    &&& e.1.count >= 1
    &&& forall|j: int|
        0 <= j < e.1.weights@.len() ==> #[trigger] e.1.weights@[j] <= e.1.count * WEIGHT_MAX
}

/// Replacing one class entry changes the pair-count sum by the difference of
/// the entries' own pair counts.
proof fn lemma_entries_sum_update(s: Seq<(TargetGroup, TGValue)>, c: int, e: (TargetGroup, TGValue))
    requires
        0 <= c < s.len(),
    ensures
        entries_sum(s.update(c, e)) == entries_sum(s) - s[c].1.count * s[c].0.tgts@.len()
            + e.1.count * e.0.tgts@.len(),
    decreases s.len(),
{
    if c == s.len() - 1 {
        assert(s.update(c, e).drop_last() =~= s.drop_last());
    } else {
        assert(s.update(c, e).drop_last() =~= s.drop_last().update(c, e));
        lemma_entries_sum_update(s.drop_last(), c, e);
    }
}

/// Replacing one class entry changes the member-count sum by the difference
/// of the entries' own counts.
proof fn lemma_counts_sum_update(s: Seq<(TargetGroup, TGValue)>, c: int, e: (TargetGroup, TGValue))
    requires
        0 <= c < s.len(),
    ensures
        counts_sum(s.update(c, e)) == counts_sum(s) - s[c].1.count + e.1.count,
    decreases s.len(),
{
    if c == s.len() - 1 {
        assert(s.update(c, e).drop_last() =~= s.drop_last());
    } else {
        assert(s.update(c, e).drop_last() =~= s.drop_last().update(c, e));
        lemma_counts_sum_update(s.drop_last(), c, e);
    }
}

/// Every class's own pair count is bounded by the total pair count.
pub proof fn lemma_entries_sum_bound(s: Seq<(TargetGroup, TGValue)>, c: int)
    requires
        0 <= c < s.len(),
        forall|d: int| 0 <= d < s.len() ==> #[trigger] s[d].1.count >= 1,
    ensures
        s[c].1.count * s[c].0.tgts@.len() <= entries_sum(s),
        entries_sum(s) >= 0,
    decreases s.len(),
{
    lemma_entries_sum_nonneg(s.drop_last());
    if c < s.len() - 1 {
        lemma_entries_sum_bound(s.drop_last(), c);
        assert(s.last().1.count * s.last().0.tgts@.len() >= 0) by (nonlinear_arith)
            requires s.last().1.count >= 1;
    }
}

/// The pair-count sum is never negative.
pub proof fn lemma_entries_sum_nonneg(s: Seq<(TargetGroup, TGValue)>)
    ensures
        entries_sum(s) >= 0,
    decreases s.len(),
{
    if s.len() > 0 {
        lemma_entries_sum_nonneg(s.drop_last());
        assert(s.last().1.count * s.last().0.tgts@.len() >= 0) by (nonlinear_arith);
    }
}

/// A sum of weights bounded elementwise is bounded by length times the bound.
pub proof fn lemma_sum128_bounded(s: Seq<u128>, bound: int)
    requires
        forall|j: int| 0 <= j < s.len() ==> #[trigger] s[j] <= bound,
    ensures
        sum128(s) <= s.len() * bound,
    decreases s.len(),
{
    if s.len() > 0 {
        lemma_sum128_bounded(s.drop_last(), bound);
        assert((s.len() - 1) * bound + bound == s.len() * bound) by (nonlinear_arith);
    }
}

/// Groups reads into equivalence classes keyed by their ordered target
/// sequence. `count_vec` lists the classes in first-appearance order, which
/// is deterministic for a given input order.
pub struct EquivalenceClassBuilder {
    pub count_vec: Vec<(TargetGroup, TGValue)>,
    pub total_count: u64,
    pub total_entries: u64,
    pub active_: bool,
}

impl EquivalenceClassBuilder {
    /// Structural invariant: well-formed entries, pairwise-distinct keys,
    /// and bookkeeping sums that cap the arithmetic downstream.
    pub open spec fn wf(self) -> bool {
        &&& forall|c: int| 0 <= c < self.count_vec@.len() ==> class_wf(#[trigger] self.count_vec@[c])
        &&& forall|c: int, d: int|
            0 <= c < d < self.count_vec@.len() ==> #[trigger] self.count_vec@[c].0.tgts@
                != #[trigger] self.count_vec@[d].0.tgts@
        &&& counts_sum(self.count_vec@) == self.total_count
        &&& entries_sum(self.count_vec@) == self.total_entries
        &&& self.total_count <= self.total_entries
        &&& self.total_entries <= MAX_RECORDS
    }

    pub fn new() -> (r: EquivalenceClassBuilder)
        ensures
            r.wf(),
            r.count_vec@.len() == 0,
            r.total_count == 0,
            r.total_entries == 0,
            r.active_,
    {
        EquivalenceClassBuilder { count_vec: Vec::new(), total_count: 0, total_entries: 0, active_: true }
    }

    /// Folds one read into the class keyed by `g`: an existing class gains
    /// one member and the elementwise weight contribution; a new key starts a
    /// class with count 1.
    #[verifier::loop_isolation(false)]
    pub fn add_group(&mut self, g: TargetGroup, weights: Vec<u64>)
        requires
            old(self).wf(),
            old(self).active_,
            g.wf(),
            weights@.len() == g.tgts@.len(),
            g.tgts@.len() >= 1,
            forall|j: int| 0 <= j < weights@.len() ==> #[trigger] weights@[j] <= WEIGHT_MAX,
            old(self).total_entries + g.tgts@.len() <= MAX_RECORDS,
        ensures
            final(self).wf(),
            final(self).total_count == old(self).total_count + 1,
            final(self).total_entries == old(self).total_entries + g.tgts@.len(),
            final(self).active_ == old(self).active_,
            forall|c: int|
                0 <= c < old(self).count_vec@.len() && #[trigger] old(self).count_vec@[c].0.tgts@
                    == g.tgts@ ==> {
                    &&& final(self).count_vec@.len() == old(self).count_vec@.len()
                    &&& (forall|d: int|
                        0 <= d < old(self).count_vec@.len() && d != c
                            ==> #[trigger] final(self).count_vec@[d] == old(self).count_vec@[d])
                    &&& final(self).count_vec@[c].0.tgts@ == old(self).count_vec@[c].0.tgts@
                    &&& final(self).count_vec@[c].1.count == old(self).count_vec@[c].1.count + 1
                    &&& final(self).count_vec@[c].1.weights@.len()
                        == old(self).count_vec@[c].1.weights@.len()
                    &&& (forall|j: int|
                        0 <= j < weights@.len()
                            ==> #[trigger] final(self).count_vec@[c].1.weights@[j]
                            == old(self).count_vec@[c].1.weights@[j] + weights@[j])
                },
            (forall|c: int|
                0 <= c < old(self).count_vec@.len() ==> #[trigger] old(self).count_vec@[c].0.tgts@
                    != g.tgts@) ==> {
                &&& final(self).count_vec@.len() == old(self).count_vec@.len() + 1
                &&& (forall|d: int|
                    0 <= d < old(self).count_vec@.len() ==> #[trigger] final(self).count_vec@[d]
                        == old(self).count_vec@[d])
                &&& final(self).count_vec@.last().0.tgts@ == g.tgts@
                &&& final(self).count_vec@.last().1.count == 1
                &&& (forall|j: int|
                    0 <= j < weights@.len() ==> #[trigger] final(self).count_vec@.last().1.weights@[j]
                        == weights@[j])
            },
    {
        let ghost pre = self.count_vec@;
        let mut i: usize = 0;
        while i < self.count_vec.len()
            invariant
                0 <= i <= self.count_vec@.len(),
                self.count_vec@ == pre,
                self.total_count == old(self).total_count,
                self.total_entries == old(self).total_entries,
                self.active_ == old(self).active_,
                forall|c: int| 0 <= c < i ==> #[trigger] pre[c].0.tgts@ != g.tgts@,
            decreases self.count_vec.len() - i,
        {
            let hit = self.count_vec[i].0.same_tgts(&g);
            if hit {
                proof {
                    assert(forall|c: int|
                        0 <= c < pre.len() && #[trigger] pre[c].0.tgts@ == g.tgts@ ==> c == i);
                    lemma_entries_sum_bound(pre, i as int);
                    assert(pre[i as int].1.count <= pre[i as int].1.count
                        * pre[i as int].0.tgts@.len()) by (nonlinear_arith)
                        requires pre[i as int].1.count >= 1, pre[i as int].0.tgts@.len() >= 1;
                }
                let (tg, old_val) = self.count_vec.remove(i);
                let mut new_weights: Vec<u128> = Vec::new();
                let mut j: usize = 0;
                while j < weights.len()
                    invariant
                        0 <= j <= weights@.len(),
                        new_weights@.len() == j,
                        forall|k: int|
                            0 <= k < j ==> #[trigger] new_weights@[k] == old_val.weights@[k]
                                + weights@[k],
                    decreases weights.len() - j,
                {
                    new_weights.push(old_val.weights[j] + (weights[j] as u128));
                    j = j + 1;
                }
                let new_val = TGValue {
                    weights: new_weights,
                    combined_weights: old_val.combined_weights,
                    count: old_val.count + 1,
                };
                self.count_vec.insert(i, (tg, new_val));
                proof {
                    assert(self.count_vec@ =~= pre.update(i as int, self.count_vec@[i as int]));
                    lemma_entries_sum_update(pre, i as int, self.count_vec@[i as int]);
                    lemma_counts_sum_update(pre, i as int, self.count_vec@[i as int]);
                    assert((pre[i as int].1.count + 1) * pre[i as int].0.tgts@.len()
                        == pre[i as int].1.count * pre[i as int].0.tgts@.len()
                        + pre[i as int].0.tgts@.len()) by (nonlinear_arith);
                }
                self.total_count = self.total_count + 1;
                self.total_entries = self.total_entries + (self.count_vec[i].0.tgts.len() as u64);
                return ;
            }
            i = i + 1;
        }
        let mut new_weights: Vec<u128> = Vec::new();
        let mut j: usize = 0;
        while j < weights.len()
            invariant
                0 <= j <= weights@.len(),
                new_weights@.len() == j,
                forall|k: int| 0 <= k < j ==> #[trigger] new_weights@[k] == weights@[k],
                forall|k: int| 0 <= k < weights@.len() ==> #[trigger] weights@[k] <= WEIGHT_MAX,
            decreases weights.len() - j,
        {
            new_weights.push(weights[j] as u128);
            j = j + 1;
        }
        let k = g.tgts.len() as u64;
        let val = TGValue { weights: new_weights, combined_weights: Vec::new(), count: 1 };
        self.count_vec.push((g, val));
        proof {
            assert(self.count_vec@.drop_last() =~= pre);
            assert(1 * self.count_vec@.last().0.tgts@.len()
                == self.count_vec@.last().0.tgts@.len()) by (nonlinear_arith);
        }
        self.total_count = self.total_count + 1;
        self.total_entries = self.total_entries + k;
    }

    /// Freezes the builder: every class's weight vector is normalised into
    /// `combined_weights`, which sums to exactly `SCALE` whenever the class
    /// carries any weight at all. Returns the total member count.
    #[verifier::loop_isolation(false)]
    pub fn finish(&mut self) -> (total: u64)
        requires
            old(self).wf(),
        ensures
            final(self).wf(),
            !final(self).active_,
            total == old(self).total_count,
            final(self).total_count == old(self).total_count,
            final(self).total_entries == old(self).total_entries,
            final(self).count_vec@.len() == old(self).count_vec@.len(),
            forall|c: int|
                0 <= c < final(self).count_vec@.len() ==> {
                    &&& #[trigger] final(self).count_vec@[c].0 == old(self).count_vec@[c].0
                    &&& final(self).count_vec@[c].1.weights@ == old(self).count_vec@[c].1.weights@
                    &&& final(self).count_vec@[c].1.count == old(self).count_vec@[c].1.count
                    &&& final(self).count_vec@[c].1.combined_weights@.len()
                        == final(self).count_vec@[c].0.tgts@.len()
                    &&& (sum128(final(self).count_vec@[c].1.weights@) > 0 ==> sum64(
                        final(self).count_vec@[c].1.combined_weights@,
                    ) == SCALE)
                    &&& (sum128(final(self).count_vec@[c].1.weights@) == 0 ==> sum64(
                        final(self).count_vec@[c].1.combined_weights@,
                    ) == 0)
                    &&& (sum128(old(self).count_vec@[c].1.weights@) > 0 ==> forall|j: int|
                        0 <= j < final(self).count_vec@[c].1.combined_weights@.len()
                            ==> #[trigger] final(self).count_vec@[c].1.combined_weights@[j]
                            == carried_share(old(self).count_vec@[c].1.weights@, j + 1)
                            - carried_share(old(self).count_vec@[c].1.weights@, j))
                    &&& (sum128(old(self).count_vec@[c].1.weights@) == 0 ==> forall|j: int|
                        0 <= j < final(self).count_vec@[c].1.combined_weights@.len()
                            ==> #[trigger] final(self).count_vec@[c].1.combined_weights@[j] == 0)
                    &&& (forall|j: int|
                        0 <= j < final(self).count_vec@[c].1.combined_weights@.len()
                            ==> #[trigger] final(self).count_vec@[c].1.combined_weights@[j] <= SCALE)
                },
    {
        self.active_ = false;
        let ghost pre = self.count_vec@;
        let mut i: usize = 0;
        while i < self.count_vec.len()
            invariant
                0 <= i <= self.count_vec@.len(),
                self.count_vec@.len() == pre.len(),
                self.total_count == old(self).total_count,
                self.total_entries == old(self).total_entries,
                self.active_ == false,
                counts_sum(self.count_vec@) == counts_sum(pre),
                entries_sum(self.count_vec@) == entries_sum(pre),
                forall|c: int| 0 <= c < pre.len() ==> class_wf(#[trigger] self.count_vec@[c]),
                forall|c: int, d: int|
                    0 <= c < d < pre.len() ==> #[trigger] self.count_vec@[c].0.tgts@
                        != #[trigger] self.count_vec@[d].0.tgts@,
                forall|c: int|
                    i <= c < pre.len() ==> #[trigger] self.count_vec@[c] == pre[c],
                forall|c: int|
                    0 <= c < i ==> {
                        &&& #[trigger] self.count_vec@[c].0 == pre[c].0
                        &&& self.count_vec@[c].1.weights@ == pre[c].1.weights@
                        &&& self.count_vec@[c].1.count == pre[c].1.count
                        &&& self.count_vec@[c].1.combined_weights@.len() == pre[c].0.tgts@.len()
                        &&& (sum128(pre[c].1.weights@) > 0 ==> sum64(
                            self.count_vec@[c].1.combined_weights@,
                        ) == SCALE)
                        &&& (sum128(pre[c].1.weights@) == 0 ==> sum64(
                            self.count_vec@[c].1.combined_weights@,
                        ) == 0)
                        &&& (sum128(pre[c].1.weights@) > 0 ==> forall|j: int|
                            0 <= j < self.count_vec@[c].1.combined_weights@.len()
                                ==> #[trigger] self.count_vec@[c].1.combined_weights@[j]
                                == carried_share(pre[c].1.weights@, j + 1) - carried_share(
                                pre[c].1.weights@,
                                j,
                            ))
                        &&& (sum128(pre[c].1.weights@) == 0 ==> forall|j: int|
                            0 <= j < self.count_vec@[c].1.combined_weights@.len()
                                ==> #[trigger] self.count_vec@[c].1.combined_weights@[j] == 0)
                        &&& (forall|j: int|
                            0 <= j < self.count_vec@[c].1.combined_weights@.len()
                                ==> #[trigger] self.count_vec@[c].1.combined_weights@[j] <= SCALE)
                    },
            decreases self.count_vec.len() - i,
        {
            let ghost snap = self.count_vec@;
            let (tg, mut val) = self.count_vec.remove(i);
            proof {
                lemma_entries_sum_bound(snap, i as int);
                assert(sum128(val.weights@) <= val.weights@.len() * (val.count * WEIGHT_MAX)) by {
                    lemma_sum128_bounded(val.weights@, (val.count * WEIGHT_MAX) as int);
                }
                assert(val.weights@.len() * (val.count * WEIGHT_MAX) == (val.count
                    * snap[i as int].0.tgts@.len()) * WEIGHT_MAX) by (nonlinear_arith)
                    requires val.weights@.len() == snap[i as int].0.tgts@.len(), val == snap[i as int].1;
                assert((val.count * snap[i as int].0.tgts@.len()) * WEIGHT_MAX <= MAX_RECORDS
                    * WEIGHT_MAX) by (nonlinear_arith)
                    requires val.count * snap[i as int].0.tgts@.len() <= MAX_RECORDS;
            }
            val.normalize_aux();
            self.count_vec.insert(i, (tg, val));
            proof {
                assert(self.count_vec@ =~= snap.update(i as int, self.count_vec@[i as int]));
                lemma_entries_sum_update(snap, i as int, self.count_vec@[i as int]);
                lemma_counts_sum_update(snap, i as int, self.count_vec@[i as int]);
            }
            i = i + 1;
        }
        self.total_count
    }
}

} // verus!

verus! {

/// With every class holding at least one read, there are no more classes
/// than member reads.
pub proof fn lemma_counts_len(s: Seq<(TargetGroup, TGValue)>)
    requires
        forall|c: int| 0 <= c < s.len() ==> (#[trigger] s[c]).1.count >= 1,
    ensures
        counts_sum(s) >= s.len(),
    decreases s.len(),
{
    if s.len() > 0 {
        lemma_counts_len(s.drop_last());
    }
}

} // verus!

verus! {

/// An element of a normalised weight vector is bounded by the vector's sum.
pub proof fn lemma_sum64_elem_bound(s: Seq<u64>, j: int)
    requires
        0 <= j < s.len(),
    ensures
        s[j] <= sum64(s),
        sum64(s) >= 0,
    decreases s.len(),
{
    lemma_sum64_nonneg(s.drop_last());
    if j < s.len() - 1 {
        lemma_sum64_elem_bound(s.drop_last(), j);
    }
}

/// A sum of unsigned values is non-negative.
pub proof fn lemma_sum64_nonneg(s: Seq<u64>)
    ensures
        sum64(s) >= 0,
    decreases s.len(),
{
    if s.len() > 0 {
        lemma_sum64_nonneg(s.drop_last());
    }
}

/// A prefix of the class list has no more (read, target) pairs than the
/// whole.
pub proof fn lemma_entries_prefix(s: Seq<(TargetGroup, TGValue)>, i: int)
    requires
        0 <= i <= s.len(),
    ensures
        entries_sum(s.take(i)) <= entries_sum(s),
        entries_sum(s.take(i)) >= 0,
    decreases s.len() - i,
{
    if i == s.len() {
        assert(s.take(i) =~= s);
        lemma_entries_sum_nonneg(s);
    } else {
        lemma_entries_prefix(s, i + 1);
        assert(s.take(i + 1).drop_last() =~= s.take(i));
        lemma_entries_sum_nonneg(s.take(i));
        assert(s.take(i + 1).last().1.count * s.take(i + 1).last().0.tgts@.len() >= 0)
            by (nonlinear_arith);
    }
}

} // verus!
