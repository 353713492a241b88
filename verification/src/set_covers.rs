//! Greedy weighted set cover over the ambiguous equivalence classes. Sets
//! are scored by weight per newly covered element, binned by doubling, and
//! consumed from the cheapest bin first; a set is retained only when it
//! covers at least one element no earlier retained set covered.
use vstd::prelude::*;

use crate::MAX_RECORDS;

verus! {

/// Number of `false` entries.
pub open spec fn count_false(s: Seq<bool>) -> int
    decreases s.len(),
{
    if s.len() == 0 {
        0
    } else {
        count_false(s.drop_last()) + if s.last() {
            0int
        } else {
            1int
        }
    }
}

proof fn lemma_count_false_update(s: Seq<bool>, i: int)
    requires
        0 <= i < s.len(),
        !s[i],
    ensures
        count_false(s.update(i, true)) == count_false(s) - 1,
    decreases s.len(),
{
    if i == s.len() - 1 {
        assert(s.update(i, true).drop_last() =~= s.drop_last());
    } else {
        assert(s.update(i, true).drop_last() =~= s.drop_last().update(i, true));
        lemma_count_false_update(s.drop_last(), i);
    }
}

proof fn lemma_count_false_nonneg(s: Seq<bool>)
    ensures
        count_false(s) >= 0,
    decreases s.len(),
{
    if s.len() > 0 {
        lemma_count_false_nonneg(s.drop_last());
    }
}

/// Counts the uncovered element markers.
fn count_uncovered(covered: &Vec<bool>) -> (r: usize)
    ensures
        r == count_false(covered@),
{
    let mut n: usize = 0;
    let mut i: usize = 0;
    while i < covered.len()
        invariant
            0 <= i <= covered@.len(),
            n == count_false(covered@.take(i as int)),
            n <= i,
        decreases covered.len() - i,
    {
        proof {
            assert(covered@.take(i + 1).drop_last() =~= covered@.take(i as int));
        }
        if !covered[i] {
            n = n + 1;
        }
        i = i + 1;
    }
    proof {
        assert(covered@.take(covered@.len() as int) =~= covered@);
    }
    n
}

/// The score bin of a set: twice its total weight divided by the number of
/// its elements not yet covered; sets covering nothing new sink to the
/// bottomless bin.
#[verifier::loop_isolation(false)]
fn cover_score(covered: &Vec<bool>, s: &Vec<u64>, weight: u64) -> (r: u64)
    requires
        weight <= 10000,
        s@.len() >= 1,
        s@.len() <= MAX_RECORDS,
        forall|j: int| 0 <= j < s@.len() ==> 1 <= #[trigger] s@[j] < covered@.len(),
{
    proof {
        assert(weight * s@.len() <= 10000 * MAX_RECORDS) by (nonlinear_arith)
            requires weight <= 10000, s@.len() <= MAX_RECORDS;
    }
    let v: u64 = weight * (s.len() as u64);
    let mut count: u64 = 0;
    let mut j: usize = 0;
    while j < s.len()
        invariant
            0 <= j <= s@.len(),
            count <= j,
        decreases s.len() - j,
    {
        if !covered[s[j] as usize] {
            count = count + 1;
        }
        j = j + 1;
    }
    if count == 0 {
        u64::MAX
    } else {
        (2 * v) / count
    }
}

/// Retained-set indices are valid and pairwise distinct.
pub open spec fn retained_valid(sets: Seq<Vec<u64>>, fc: Seq<usize>) -> bool {
    &&& forall|c: int| 0 <= c < fc.len() ==> #[trigger] fc[c] < sets.len()
    &&& forall|c: int, d: int| 0 <= c < d < fc.len() ==> fc[c] != fc[d]
}

/// Every element of a retained set is marked covered.
pub open spec fn retained_covered(sets: Seq<Vec<u64>>, fc: Seq<usize>, covered: Seq<bool>) -> bool {
    forall|c: int, j: int|
        0 <= c < fc.len() && 0 <= j < sets[fc[c] as int]@.len() ==> covered[#[trigger] sets[fc[
            c] as int]@[j] as int]
}

/// Every covered element is in some retained set.
pub open spec fn covered_by_retained(
    sets: Seq<Vec<u64>>,
    fc: Seq<usize>,
    covered: Seq<bool>,
    unique_elements: int,
) -> bool {
    forall|x: int|
        1 <= x <= unique_elements && #[trigger] covered[x] ==> exists|c: int|
            0 <= c < fc.len() && sets[fc[c] as int]@.contains(x as u64)
}

/// Every set that is no longer active has all its elements covered.
pub open spec fn inactive_covered(sets: Seq<Vec<u64>>, active: Seq<usize>, covered: Seq<bool>) -> bool {
    forall|i2: int, j: int|
        0 <= i2 < sets.len() && 0 <= j < sets[i2]@.len() && (forall|k: int|
            0 <= k < active.len() ==> #[trigger] active[k] != i2) ==> covered[#[trigger] sets[
            i2]@[j] as int]
}

/// The retained set at position `c` covered at least one element that no
/// earlier retained set covers.
pub open spec fn progress_at(sets: Seq<Vec<u64>>, fc: Seq<usize>, c: int) -> bool {
    exists|e2: u64|
        sets[fc[c] as int]@.contains(e2) && (forall|d: int|
            0 <= d < c ==> !sets[fc[d] as int]@.contains(e2))
}

/// Each retained set covered at least one element no earlier retained set
/// covers.
pub open spec fn retained_progress(sets: Seq<Vec<u64>>, fc: Seq<usize>) -> bool {
    forall|c: int| 0 <= c < fc.len() ==> #[trigger] progress_at(sets, fc, c)
}

/// Some retained set contains the element at position `j` of set `i`.
pub open spec fn element_covered(sets: Seq<Vec<u64>>, fc: Seq<usize>, i: int, j: int) -> bool {
    exists|c: int| 0 <= c < fc.len() && sets[fc[c] as int]@.contains(sets[i]@[j])
}

/// Every element occurring in any set is covered by some retained set.
pub open spec fn all_elements_covered(sets: Seq<Vec<u64>>, fc: Seq<usize>) -> bool {
    forall|i: int, j: int|
        0 <= i < sets.len() && 0 <= j < sets[i]@.len() ==> #[trigger] element_covered(
            sets,
            fc,
            i,
            j,
        )
}

/// Retaining one more set preserves the progress property when the new set
/// covers an element none of the earlier retained sets covers.
proof fn lemma_progress_push(sets: Seq<Vec<u64>>, fc: Seq<usize>, idx: usize, w: u64)
    requires
        retained_progress(sets, fc),
        idx < sets.len(),
        sets[idx as int]@.contains(w),
        forall|d: int| 0 <= d < fc.len() ==> !sets[#[trigger] fc[d] as int]@.contains(w),
    ensures
        retained_progress(sets, fc.push(idx)),
{
    let fc2 = fc.push(idx);
    assert forall|c: int| 0 <= c < fc2.len() implies #[trigger] progress_at(sets, fc2, c) by {
        if c < fc.len() {
            assert(progress_at(sets, fc, c));
            let e3 = choose|e3: u64|
                sets[fc[c] as int]@.contains(e3) && (forall|d: int|
                    0 <= d < c ==> !sets[fc[d] as int]@.contains(e3));
            assert(fc2[c] == fc[c]);
            assert(sets[fc2[c] as int]@.contains(e3));
            assert forall|d: int| 0 <= d < c implies !sets[fc2[d] as int]@.contains(e3) by {
                assert(fc2[d] == fc[d]);
            }
        } else {
            assert(fc2[c] == idx);
            assert(sets[fc2[c] as int]@.contains(w));
            assert forall|d: int| 0 <= d < c implies !sets[fc2[d] as int]@.contains(w) by {
                assert(fc2[d] == fc[d]);
            }
        }
    }
}

/// Greedy weighted set cover. Returns indices of the retained sets, in the
/// order they were retained. Every element that occurs in any set ends up
/// covered by some retained set, the indices are valid and pairwise
/// distinct, and each retained set covered at least one element that no
/// earlier retained set covers.
#[verifier::loop_isolation(false)]
#[verifier::rlimit(60)]
pub fn greedy_set_cover(sets: &Vec<Vec<u64>>, weights: &Vec<u64>, unique_elements: usize) -> (r:
    Vec<usize>)
    requires
        sets@.len() == weights@.len(),
        unique_elements < usize::MAX,
        forall|i: int| 0 <= i < sets@.len() ==> 1 <= (#[trigger] sets@[i])@.len() <= MAX_RECORDS,
        forall|i: int, j: int|
            0 <= i < sets@.len() && 0 <= j < sets@[i]@.len() ==> 1 <= #[trigger] sets@[i]@[j]
                <= unique_elements,
        forall|i: int| 0 <= i < weights@.len() ==> #[trigger] weights@[i] <= 10000,
    ensures
        retained_valid(sets@, r@),
        retained_progress(sets@, r@),
        all_elements_covered(sets@, r@),
{
    let mut covered: Vec<bool> = Vec::new();
    covered.push(true);
    let mut e: usize = 0;
    while e < unique_elements
        invariant
            0 <= e <= unique_elements,
            covered@.len() == e + 1,
            covered@[0] == true,
            forall|k: int| 1 <= k <= e ==> #[trigger] covered@[k] == false,
        decreases unique_elements - e,
    {
        covered.push(false);
        e = e + 1;
    }
    let mut active: Vec<usize> = Vec::new();
    let mut i: usize = 0;
    while i < sets.len()
        invariant
            0 <= i <= sets@.len(),
            active@.len() == i,
            forall|k: int| 0 <= k < i ==> #[trigger] active@[k] == k,
        decreases sets.len() - i,
    {
        active.push(i);
        i = i + 1;
    }
    let mut final_cover: Vec<usize> = Vec::new();
    proof {
        assert forall|i2: int, j: int|
            0 <= i2 < sets@.len() && 0 <= j < sets@[i2]@.len() && (forall|k: int|
                0 <= k < active@.len() ==> #[trigger] active@[k] != i2) implies covered@[
            #[trigger] sets@[i2]@[j] as int] by {
            assert(active@[i2] == i2);
        }
    }
    let mut uncovered = count_uncovered(&covered);
    while active.len() > 0 && uncovered > 0
        invariant
            uncovered == count_false(covered@),
            covered@.len() == unique_elements + 1,
            covered@[0] == true,
            forall|k: int| 0 <= k < active@.len() ==> #[trigger] active@[k] < sets@.len(),
            forall|k: int, m: int| 0 <= k < m < active@.len() ==> active@[k] != active@[m],
            forall|c: int, k: int|
                0 <= c < final_cover@.len() && 0 <= k < active@.len() ==> #[trigger] final_cover@[c]
                    != #[trigger] active@[k],
            retained_valid(sets@, final_cover@),
            retained_covered(sets@, final_cover@, covered@),
            covered_by_retained(sets@, final_cover@, covered@, unique_elements as int),
            inactive_covered(sets@, active@, covered@),
            retained_progress(sets@, final_cover@),
        decreases active.len(),
    {
        let mut loop_len: usize = uncovered / 20;
        if loop_len < 1 {
            loop_len = 1;
        }
        // score the active sets once for this pass
        let mut bins: Vec<u64> = Vec::new();
        let mut k: usize = 0;
        while k < active.len()
            invariant
                0 <= k <= active@.len(),
                bins@.len() == k,
            decreases active.len() - k,
        {
            let idx = active[k];
            bins.push(cover_score(&covered, &sets[idx], weights[idx]));
            k = k + 1;
        }
        // consume from the cheapest bin upward until the pass budget is spent
        let mut cnt: usize = 0;
        let ghost active_at_pass_start = active@.len();
        while cnt < loop_len && active.len() > 0
            invariant
                bins@.len() == active@.len(),
                active@.len() + cnt == active_at_pass_start,
                covered@.len() == unique_elements + 1,
                covered@[0] == true,
                forall|k2: int| 0 <= k2 < active@.len() ==> #[trigger] active@[k2] < sets@.len(),
                forall|k2: int, m: int| 0 <= k2 < m < active@.len() ==> active@[k2] != active@[m],
                forall|c: int, k2: int|
                    0 <= c < final_cover@.len() && 0 <= k2 < active@.len()
                        ==> #[trigger] final_cover@[c] != #[trigger] active@[k2],
                retained_valid(sets@, final_cover@),
                retained_covered(sets@, final_cover@, covered@),
                covered_by_retained(sets@, final_cover@, covered@, unique_elements as int),
                inactive_covered(sets@, active@, covered@),
                retained_progress(sets@, final_cover@),
            decreases active.len(),
        {
            // pick the cheapest (bin, position) pair still active
            let mut best: usize = 0;
            let mut m: usize = 1;
            while m < active.len()
                invariant
                    bins@.len() == active@.len(),
                    active@.len() >= 1,
                    0 <= best < m <= active@.len(),
                decreases active.len() - m,
            {
                if bins[m] < bins[best] {
                    best = m;
                }
                m = m + 1;
            }
            let ghost act_with_idx = active@;
            let idx = active.remove(best);
            bins.remove(best);
            let ghost active_pre = active@;
            proof {
                assert forall|i2: int, j2: int|
                    0 <= i2 < sets@.len() && 0 <= j2 < (#[trigger] sets@[i2])@.len() && (forall|
                        k2: int,
                    |
                        0 <= k2 < active@.len() ==> #[trigger] active@[k2] != i2) && i2
                    != act_with_idx[best as int] implies covered@[#[trigger] sets@[i2]@[j2] as int] by {
                    assert forall|k: int|
                        0 <= k < act_with_idx.len() implies #[trigger] act_with_idx[k] != i2 by {
                        if k < best {
                            assert(act_with_idx[k] == active@[k]);
                        } else if k > best {
                            assert(act_with_idx[k] == active@[k - 1]);
                        }
                    }
                }
            }
            // mark this set's elements; retain it when anything was new
            let set_ref = &sets[idx];
            let mut new_any = false;
            let ghost mut witness: u64 = 0u64;
            let mut j: usize = 0;
            while j < set_ref.len()
                invariant
                    active@ == active_pre,
                    0 <= j <= set_ref@.len(),
                    set_ref == sets@[idx as int],
                    idx < sets@.len(),
                    covered@.len() == unique_elements + 1,
                    covered@[0] == true,
                    forall|k2: int| 0 <= k2 < j ==> covered@[#[trigger] set_ref@[k2] as int],
                    new_any ==> set_ref@.contains(witness) && 1 <= witness <= unique_elements,
                    new_any ==> covered@[witness as int],
                    new_any ==> (forall|c: int|
                        0 <= c < final_cover@.len() ==> !sets@[
                            #[trigger] final_cover@[c] as int]@.contains(witness)),
                    !new_any ==> covered_by_retained(
                        sets@,
                        final_cover@,
                        covered@,
                        unique_elements as int,
                    ),
                    retained_covered(sets@, final_cover@, covered@),
                    forall|x: int|
                        1 <= x <= unique_elements && #[trigger] covered@[x] ==> (exists|c: int|
                            0 <= c < final_cover@.len() && sets@[final_cover@[c] as int]@.contains(
                                x as u64,
                            )) || set_ref@.contains(x as u64),
                    forall|i2: int, j2: int|
                        0 <= i2 < sets@.len() && 0 <= j2 < (#[trigger] sets@[i2])@.len() && (forall|
                            k2: int,
                        |
                            0 <= k2 < active@.len() ==> #[trigger] active@[k2] != i2) && i2 != idx
                            ==> covered@[#[trigger] sets@[i2]@[j2] as int],
                decreases set_ref.len() - j,
            {
                let elem = set_ref[j] as usize;
                if !covered[elem] {
                    if !new_any {
                        proof {
                            witness = set_ref@[j as int];
                        }
                    }
                    covered[elem] = true;
                    new_any = true;
                }
                j = j + 1;
            }
            proof {
                // the remaining active entries all existed before the pick
                assert forall|c: int, k2: int|
                    0 <= c < final_cover@.len() && 0 <= k2 < active@.len()
                    implies #[trigger] final_cover@[c] != #[trigger] active@[k2] by {
                    if k2 < best {
                        assert(act_with_idx[k2] == active@[k2]);
                    } else {
                        assert(act_with_idx[k2 + 1] == active@[k2]);
                    }
                }
                assert forall|c: int| 0 <= c < final_cover@.len()
                    implies #[trigger] final_cover@[c] != idx by {
                    assert(final_cover@[c] != act_with_idx[best as int]);
                }
            }
            if new_any {
                let ghost pre_final = final_cover@;
                final_cover.push(idx);
                proof {
                    assert(final_cover@.last() == idx);
                    assert(forall|d: int|
                        0 <= d < pre_final.len() ==> #[trigger] final_cover@[d] == pre_final[d]);
                    assert forall|x: int|
                        1 <= x <= unique_elements && #[trigger] covered@[x] implies exists|c: int|
                        0 <= c < final_cover@.len() && sets@[final_cover@[c] as int]@.contains(
                            x as u64,
                        ) by {
                        if exists|c: int|
                            0 <= c < pre_final.len() && sets@[pre_final[c] as int]@.contains(
                                x as u64,
                            ) {
                            let c = choose|c: int|
                                0 <= c < pre_final.len() && sets@[pre_final[c] as int]@.contains(
                                    x as u64,
                                );
                            assert(final_cover@[c] == pre_final[c]);
                            assert(sets@[final_cover@[c] as int]@.contains(x as u64));
                        } else {
                            assert(set_ref@.contains(x as u64));
                            assert(sets@[final_cover@[final_cover@.len() - 1] as int]@.contains(
                                x as u64,
                            ));
                        }
                    }
                    lemma_progress_push(sets@, pre_final, idx, witness);
                    assert(final_cover@ == pre_final.push(idx));
                }
            } else {
                proof {
                    assert(covered_by_retained(
                        sets@,
                        final_cover@,
                        covered@,
                        unique_elements as int,
                    ));
                }
            }
            cnt = cnt + 1;
        }
        uncovered = count_uncovered(&covered);
    }
    proof {
        if active.len() == 0 {
            assert forall|i2: int, j: int|
                0 <= i2 < sets@.len() && 0 <= j < sets@[i2]@.len() implies covered@[
            #[trigger] sets@[i2]@[j] as int] by {
                assert(forall|k2: int| 0 <= k2 < active@.len() ==> active@[k2] != i2);
            }
        } else {
            // every element is covered: flipping any uncovered one would
            // drop the zero count below zero
            assert forall|i2: int, j: int|
                0 <= i2 < sets@.len() && 0 <= j < sets@[i2]@.len() implies covered@[
            #[trigger] sets@[i2]@[j] as int] by {
                if !covered@[sets@[i2]@[j] as int] {
                    lemma_count_false_nonneg(covered@);
                    lemma_count_false_update(covered@, sets@[i2]@[j] as int);
                    lemma_count_false_nonneg(covered@.update(sets@[i2]@[j] as int, true));
                    assert(false);
                }
            }
        }
    }
    proof {
        assert forall|i2: int, j: int|
            0 <= i2 < sets@.len() && 0 <= j < sets@[i2]@.len() implies #[trigger] element_covered(
            sets@,
            final_cover@,
            i2,
            j,
        ) by {
            let xi = sets@[i2]@[j] as int;
            assert(covered@[xi]);
            assert(exists|c: int|
                0 <= c < final_cover@.len() && sets@[final_cover@[c] as int]@.contains(xi as u64));
            let c = choose|c: int|
                0 <= c < final_cover@.len() && sets@[final_cover@[c] as int]@.contains(xi as u64);
            assert(xi as u64 == sets@[i2]@[j]);
            assert(0 <= c < final_cover@.len() && sets@[final_cover@[c] as int]@.contains(
                sets@[i2]@[j],
            ));
        }
    }
    final_cover
}

} // verus!
