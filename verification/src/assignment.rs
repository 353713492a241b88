//! The abundance-constrained assignment engine: commits each read to a
//! single reference under a per-reference capacity derived from the
//! estimated abundance, in five phases (unique/unmapped, dominant-best,
//! score-ordered greedy, swap, fallback).
use vstd::prelude::*;

use crate::MAX_RECORDS;
use crate::MAX_SCORE;
use crate::SCALE;
use crate::readers::Mapping;
use crate::readers::Query;

verus! {

/// Where a read ends up: a real reference, or one of the two sentinels.
#[derive(PartialEq, Eq, Structural, Clone, Copy)]
pub enum Assign {
    Target(usize),
    UnmappedByAligner,
    UnassignedByPolicy,
}

/// Number of cells not yet committed.
pub open spec fn count_none(s: Seq<Option<Assign>>) -> int
    decreases s.len(),
{
    if s.len() == 0 {
        0
    } else {
        count_none(s.drop_last()) + if s.last() is None {
            1int
        } else {
            0int
        }
    }
}

proof fn lemma_count_none_update(s: Seq<Option<Assign>>, q: int, a: Assign)
    requires
        0 <= q < s.len(),
        s[q] is None,
    ensures
        count_none(s.update(q, Option::Some(a))) == count_none(s) - 1,
    decreases s.len(),
{
    if q == s.len() - 1 {
        assert(s.update(q, Option::Some(a)).drop_last() =~= s.drop_last());
    } else {
        assert(s.update(q, Option::Some(a)).drop_last() =~= s.drop_last().update(
            q,
            Option::Some(a),
        ));
        lemma_count_none_update(s.drop_last(), q, a);
    }
}

proof fn lemma_count_none_update_some(s: Seq<Option<Assign>>, q: int, a: Assign)
    requires
        0 <= q < s.len(),
        s[q] is Some,
    ensures
        count_none(s.update(q, Option::Some(a))) == count_none(s),
    decreases s.len(),
{
    if q == s.len() - 1 {
        assert(s.update(q, Option::Some(a)).drop_last() =~= s.drop_last());
    } else {
        assert(s.update(q, Option::Some(a)).drop_last() =~= s.drop_last().update(
            q,
            Option::Some(a),
        ));
        lemma_count_none_update_some(s.drop_last(), q, a);
    }
}

proof fn lemma_count_none_nonneg(s: Seq<Option<Assign>>)
    ensures
        0 <= count_none(s) <= s.len(),
    decreases s.len(),
{
    if s.len() > 0 {
        lemma_count_none_nonneg(s.drop_last());
    }
}

/// Sum of the free-commit counters.
pub open spec fn sum_free(s: Seq<int>) -> int
    decreases s.len(),
{
    if s.len() == 0 {
        0
    } else {
        sum_free(s.drop_last()) + s.last()
    }
}

proof fn lemma_sum_free_update(s: Seq<int>, i: int, v: int)
    requires
        0 <= i < s.len(),
    ensures
        sum_free(s.update(i, v)) == sum_free(s) - s[i] + v,
    decreases s.len(),
{
    if i == s.len() - 1 {
        assert(s.update(i, v).drop_last() =~= s.drop_last());
    } else {
        assert(s.update(i, v).drop_last() =~= s.drop_last().update(i, v));
        lemma_sum_free_update(s.drop_last(), i, v);
    }
}

proof fn lemma_sum_free_elem(s: Seq<int>, i: int)
    requires
        0 <= i < s.len(),
        forall|k: int| 0 <= k < s.len() ==> #[trigger] s[k] >= 0,
    ensures
        s[i] <= sum_free(s),
        sum_free(s) >= 0,
    decreases s.len(),
{
    if s.len() > 0 {
        if i < s.len() - 1 {
            lemma_sum_free_elem(s.drop_last(), i);
        } else {
            lemma_sum_free_nonneg(s.drop_last());
        }
    }
}

proof fn lemma_sum_free_nonneg(s: Seq<int>)
    requires
        forall|k: int| 0 <= k < s.len() ==> #[trigger] s[k] >= 0,
    ensures
        sum_free(s) >= 0,
    decreases s.len(),
{
    if s.len() > 0 {
        lemma_sum_free_nonneg(s.drop_last());
    }
}

/// Per-reference assignment state. `abundance` and `committed` are indexed
/// by reference id (slot 0 unused); each committed read is recorded under
/// its reference with the score it was committed at, ascending by score.
/// `free_commits` counts, per reference, the commits made outside the
/// capacity rule (unique reads and the probabilistic fallback).
pub struct AssignmentMachine {
    pub abundance: Vec<u64>,
    pub committed: Vec<u64>,
    pub assignments: Vec<Vec<(u64, usize)>>,
    pub output_assignments: Vec<Option<Assign>>,
    pub query_size: u64,
    pub free_commits: Ghost<Seq<int>>,
}

impl AssignmentMachine {
    /// Capacity discipline: a reference's committed count never exceeds its
    /// abundance share by more than one guarded slot plus its free commits.
    pub open spec fn wf(self) -> bool {
        &&& self.committed@.len() == self.abundance@.len()
        &&& self.assignments@.len() == self.abundance@.len()
        &&& self.free_commits@.len() == self.abundance@.len()
        &&& self.abundance@.len() >= 1
        &&& self.query_size <= MAX_RECORDS
        &&& self.output_assignments@.len() <= MAX_RECORDS
        &&& forall|r: int| 0 <= r < self.abundance@.len() ==> #[trigger] self.abundance@[r] <= SCALE
        &&& forall|r: int|
            0 <= r < self.committed@.len() ==> #[trigger] self.committed@[r]
                == self.assignments@[r]@.len()
        &&& forall|r: int, a: int, b: int|
            0 <= r < self.assignments@.len() && 0 <= a < b < self.assignments@[r]@.len()
                ==> (#[trigger] self.assignments@[r]@[a]).0 <= (#[trigger] self.assignments@[r]@[b]).0
        &&& forall|r: int, a: int|
            0 <= r < self.assignments@.len() && 0 <= a < self.assignments@[r]@.len() ==> {
                &&& (#[trigger] self.assignments@[r]@[a]).1 < self.output_assignments@.len()
                &&& self.assignments@[r]@[a].0 <= 1000 + MAX_SCORE
            }
        &&& forall|r: int| 0 <= r < self.free_commits@.len() ==> #[trigger] self.free_commits@[r] >= 0
        &&& sum_free(self.free_commits@) + count_none(self.output_assignments@)
            <= self.output_assignments@.len()
        &&& forall|r: int|
            1 <= r < self.committed@.len() ==> (#[trigger] self.committed@[r]) * SCALE
                < self.abundance@[r] * self.query_size + 2 * SCALE + self.free_commits@[r] * SCALE
    }

    /// Every reference's committed count is bounded well inside `u64`
    /// arithmetic.
    pub proof fn lemma_committed_bound(self, r: int)
        requires
            self.wf(),
            1 <= r < self.committed@.len(),
        ensures
            self.committed@[r] < 2 * MAX_RECORDS + 2,
    {
        lemma_sum_free_elem(self.free_commits@, r);
        lemma_count_none_nonneg(self.output_assignments@);
        assert(self.abundance@[r] * self.query_size <= SCALE * MAX_RECORDS) by (nonlinear_arith)
            requires self.abundance@[r] <= SCALE, self.query_size <= MAX_RECORDS;
        assert(self.committed@[r] * SCALE < SCALE * MAX_RECORDS + 2 * SCALE + MAX_RECORDS * SCALE);
        assert(self.committed@[r] < MAX_RECORDS + 2 + MAX_RECORDS) by (nonlinear_arith)
            requires
                self.committed@[r] * SCALE < SCALE * MAX_RECORDS + 2 * SCALE + MAX_RECORDS * SCALE,
        ;
    }

    /// A reference estimated absent (zero abundance) that received no free
    /// commit holds at most one read: the law behind the tightest capacity.
    pub proof fn lemma_zero_abundance_capacity(self, r: int)
        requires
            self.wf(),
            1 <= r < self.committed@.len(),
            self.abundance@[r] == 0,
            self.free_commits@[r] == 0,
        ensures
            self.committed@[r] <= 1,
    {
        assert(self.committed@[r] * SCALE < 2 * SCALE);
        assert(self.committed@[r] <= 1) by (nonlinear_arith)
            requires self.committed@[r] * SCALE < 2 * SCALE;
    }

    #[verifier::loop_isolation(false)]
    pub fn new(strain_abundance: &Vec<u64>, query_size: u64, n_queries: usize) -> (r:
        AssignmentMachine)
        requires
            forall|i: int| 0 <= i < strain_abundance@.len() ==> #[trigger] strain_abundance@[i] <= SCALE,
            query_size <= MAX_RECORDS,
            n_queries <= MAX_RECORDS,
        ensures
            r.wf(),
            r.abundance@.len() == strain_abundance@.len() + 1,
            forall|i: int|
                0 <= i < strain_abundance@.len() ==> #[trigger] r.abundance@[i + 1]
                    == strain_abundance@[i],
            r.output_assignments@.len() == n_queries,
            forall|q: int| 0 <= q < n_queries ==> (#[trigger] r.output_assignments@[q]) is None,
            forall|i: int| 0 <= i < r.committed@.len() ==> #[trigger] r.committed@[i] == 0,
            forall|i: int| 0 <= i < r.free_commits@.len() ==> #[trigger] r.free_commits@[i] == 0,
            r.query_size == query_size,
    {
        let n = strain_abundance.len();
        let mut abundance: Vec<u64> = Vec::new();
        let mut committed: Vec<u64> = Vec::new();
        let mut assignments: Vec<Vec<(u64, usize)>> = Vec::new();
        abundance.push(0);
        committed.push(0);
        assignments.push(Vec::new());
        let mut i: usize = 0;
        while i < n
            invariant
                0 <= i <= n,
                n == strain_abundance@.len(),
                abundance@.len() == i + 1,
                committed@.len() == i + 1,
                assignments@.len() == i + 1,
                abundance@[0] == 0,
                forall|k: int| 0 <= k < i ==> #[trigger] abundance@[k + 1] == strain_abundance@[k],
                forall|k: int| 0 <= k < i + 1 ==> #[trigger] abundance@[k] <= SCALE,
                forall|k: int| 0 <= k < i + 1 ==> #[trigger] committed@[k] == 0,
                forall|k: int| 0 <= k < i + 1 ==> (#[trigger] assignments@[k])@.len() == 0,
            decreases n - i,
        {
            abundance.push(strain_abundance[i]);
            committed.push(0);
            assignments.push(Vec::new());
            proof {
                assert(abundance@[i + 1] == strain_abundance@[i as int]);
                assert(strain_abundance@[i as int] <= SCALE);
            }
            i = i + 1;
        }
        let mut output_assignments: Vec<Option<Assign>> = Vec::new();
        let mut q: usize = 0;
        while q < n_queries
            invariant
                0 <= q <= n_queries,
                output_assignments@.len() == q,
                forall|k: int| 0 <= k < q ==> (#[trigger] output_assignments@[k]) is None,
                count_none(output_assignments@) == q,
            decreases n_queries - q,
        {
            proof {
                assert(output_assignments@.push(Option::<Assign>::None).drop_last()
                    =~= output_assignments@);
            }
            output_assignments.push(None);
            q = q + 1;
        }
        let m = AssignmentMachine {
            abundance,
            committed,
            assignments,
            output_assignments,
            query_size,
            free_commits: Ghost(Seq::new((n + 1) as nat, |k: int| 0int)),
        };
        proof {
            lemma_sum_free_zero(m.free_commits@);
        }
        m
    }

    /// Whether a reference's committed share is still below its abundance
    /// share plus one read's worth: the capacity rule of phases two to four.
    pub open spec fn has_room(self, r: int) -> bool {
        (self.committed@[r] as int) * SCALE < (self.abundance@[r] as int) * self.query_size + SCALE
    }

    /// Whether a reference can take one more read: its committed share is
    /// still below abundance plus one read's worth.
    pub fn has_space(&self, ref_id: usize) -> (r: bool)
        requires
            self.wf(),
            1 <= ref_id < self.committed@.len(),
        ensures
            r == ((self.committed@[ref_id as int] as int) * SCALE < (self.abundance@[
                ref_id as int] as int) * self.query_size + SCALE),
            r == self.has_room(ref_id as int),
    {
        proof {
            self.lemma_committed_bound(ref_id as int);
            assert(self.abundance@[ref_id as int] * self.query_size <= SCALE * MAX_RECORDS)
                by (nonlinear_arith)
                requires
                    self.abundance@[ref_id as int] <= SCALE,
                    self.query_size <= MAX_RECORDS,
            ;
        }
        self.committed[ref_id] * crate::SCALE < self.abundance[ref_id] * self.query_size
            + crate::SCALE
    }
}

proof fn lemma_sum_free_zero(s: Seq<int>)
    requires
        forall|k: int| 0 <= k < s.len() ==> #[trigger] s[k] == 0,
    ensures
        sum_free(s) == 0,
    decreases s.len(),
{
    if s.len() > 0 {
        lemma_sum_free_zero(s.drop_last());
    }
}

} // verus!

verus! {

/// Entries are ordered by ascending committed score.
pub open spec fn entries_sorted(s: Seq<(u64, usize)>) -> bool {
    forall|a: int, b: int| 0 <= a < b < s.len() ==> (#[trigger] s[a]).0 <= (#[trigger] s[b]).0
}

/// Inserts a committed entry at its score position (after equal scores).
#[verifier::loop_isolation(false)]
fn insert_entry(v: &mut Vec<(u64, usize)>, score: u64, q: usize)
    requires
        entries_sorted(old(v)@),
    ensures
        entries_sorted(final(v)@),
        final(v)@.len() == old(v)@.len() + 1,
        final(v)@.to_multiset() == old(v)@.to_multiset().insert((score, q)),
        forall|a: int|
            0 <= a < final(v)@.len() ==> #[trigger] final(v)@[a] == (score, q) || old(v)@.contains(
                final(v)@[a],
            ),
{
    let mut idx: usize = 0;
    while idx < v.len()
        invariant
            0 <= idx <= v@.len(),
            forall|a: int| 0 <= a < idx ==> (#[trigger] v@[a]).0 <= score,
            v@ == old(v)@,
        decreases v.len() - idx,
    {
        if v[idx].0 > score {
            break ;
        }
        idx = idx + 1;
    }
    proof {
        broadcast use vstd::seq_lib::group_to_multiset_ensures;
    }
    v.insert(idx, (score, q));
    proof {
        let pre = old(v)@;
        let post = v@;
        assert(post =~= pre.take(idx as int).push((score, q)) + pre.skip(idx as int));
        lemma_insert_multiset(pre, idx as int, (score, q));
        assert forall|a: int|
            0 <= a < post.len() implies #[trigger] post[a] == (score, q) || pre.contains(
            post[a],
        ) by {
            if a < idx {
                assert(post[a] == pre[a]);
            } else if a > idx {
                assert(post[a] == pre[a - 1]);
            }
        }
    }
}

/// Inserting into a sequence matches a multiset insert.
proof fn lemma_insert_multiset(s: Seq<(u64, usize)>, i: int, e: (u64, usize))
    requires
        0 <= i <= s.len(),
    ensures
        s.insert(i, e).to_multiset() == s.to_multiset().insert(e),
    decreases s.len() - i,
{
    broadcast use vstd::seq_lib::group_to_multiset_ensures;

    if i == s.len() {
        assert(s.insert(i, e) =~= s.push(e));
    } else {
        assert(s.insert(i, e).drop_last() =~= s.drop_last().insert(i, e));
        assert(s.insert(i, e).last() == s.last());
        lemma_insert_multiset(s.drop_last(), i, e);
        assert(s.insert(i, e) =~= s.drop_last().insert(i, e).push(s.last()));
        assert(s.drop_last().insert(i, e).push(s.last()).to_multiset() =~= s.drop_last().insert(
            i,
            e,
        ).to_multiset().insert(s.last()));
        assert(s =~= s.drop_last().push(s.last()));
        assert(s.to_multiset() =~= s.drop_last().to_multiset().insert(s.last()));
        assert(s.drop_last().to_multiset().insert(e).insert(s.last()) =~= s.drop_last().to_multiset().insert(
            s.last(),
        ).insert(e));
    }
}

/// Removes one occurrence of an exact committed entry.
#[verifier::loop_isolation(false)]
fn remove_entry(v: &mut Vec<(u64, usize)>, score: u64, q: usize) -> (found: bool)
    requires
        entries_sorted(old(v)@),
    ensures
        entries_sorted(final(v)@),
        found == old(v)@.contains((score, q)),
        found ==> final(v)@.len() == old(v)@.len() - 1 && final(v)@.to_multiset() == old(
            v,
        )@.to_multiset().remove((score, q)),
        !found ==> final(v)@ == old(v)@,
        forall|a: int|
            0 <= a < final(v)@.len() ==> old(v)@.contains(#[trigger] final(v)@[a]),
{
    let mut idx: usize = 0;
    while idx < v.len()
        invariant
            0 <= idx <= v@.len(),
            v@ == old(v)@,
            forall|a: int| 0 <= a < idx ==> #[trigger] v@[a] != (score, q),
        decreases v.len() - idx,
    {
        let e = v[idx];
        if e.0 == score && e.1 == q {
            proof {
                broadcast use vstd::seq_lib::group_to_multiset_ensures;

                assert(v@[idx as int] == (score, q));
                assert(v@.contains((score, q)));
            }
            v.remove(idx);
            proof {
                let pre = old(v)@;
                assert forall|a: int|
                    0 <= a < v@.len() implies pre.contains(#[trigger] v@[a]) by {
                    if a < idx {
                        assert(v@[a] == pre[a]);
                    } else {
                        assert(v@[a] == pre[a + 1]);
                    }
                }
                assert forall|a: int, b: int|
                    0 <= a < b < v@.len() implies (#[trigger] v@[a]).0 <= (#[trigger] v@[b]).0 by {
                    let pre_a: int = if a < idx {
                        a
                    } else {
                        a + 1
                    };
                    let pre_b: int = if b < idx {
                        b
                    } else {
                        b + 1
                    };
                    assert(v@[a] == pre[pre_a]);
                    assert(v@[b] == pre[pre_b]);
                }
            }
            return true;
        }
        idx = idx + 1;
    }
    proof {
        if v@.contains((score, q)) {
            let k = choose|k: int| 0 <= k < v@.len() && v@[k] == (score, q);
            assert(false);
        }
    }
    false
}

} // verus!

verus! {

impl AssignmentMachine {
    /// Commits an uncommitted read to a reference that has space.
    pub fn add_assignment(&mut self, query_id: usize, ref_id: usize, score: u64)
        requires
            old(self).wf(),
            1 <= ref_id < old(self).committed@.len(),
            query_id < old(self).output_assignments@.len(),
            old(self).output_assignments@[query_id as int] is None,
            score <= 1000 + MAX_SCORE,
            (old(self).committed@[ref_id as int] as int) * SCALE < (old(self).abundance@[
                ref_id as int] as int) * old(self).query_size + SCALE,
        ensures
            final(self).wf(),
            final(self).output_assignments@ == old(self).output_assignments@.update(
                query_id as int,
                Option::Some(Assign::Target(ref_id)),
            ),
            final(self).committed@ == old(self).committed@.update(
                ref_id as int,
                (old(self).committed@[ref_id as int] + 1) as u64,
            ),
            final(self).abundance@ == old(self).abundance@,
            final(self).query_size == old(self).query_size,
            final(self).free_commits@ == old(self).free_commits@,
            final(self).assignments@.len() == old(self).assignments@.len(),
            forall|r: int|
                0 <= r < old(self).assignments@.len() && r != ref_id
                    ==> #[trigger] final(self).assignments@[r] == old(self).assignments@[r],
            final(self).assignments@[ref_id as int]@.to_multiset() == old(self).assignments@[
                ref_id as int]@.to_multiset().insert((score, query_id)),
    {
        proof {
            self.lemma_committed_bound(ref_id as int);
            lemma_count_none_update(
                self.output_assignments@,
                query_id as int,
                Assign::Target(ref_id),
            );
            lemma_count_none_nonneg(self.output_assignments@);
        }
        let cur = self.committed[ref_id];
        self.committed[ref_id] = cur + 1;
        insert_entry(&mut self.assignments[ref_id], score, query_id);
        self.output_assignments[query_id] = Some(Assign::Target(ref_id));
        proof {
            broadcast use vstd::seq_lib::group_to_multiset_ensures;
        }
    }

    /// Commits a read outside the capacity rule (a uniquely mapped read, or
    /// the probabilistic fallback), counting it as a free commit.
    pub fn add_assignment_free(&mut self, query_id: usize, ref_id: usize, score: u64)
        requires
            old(self).wf(),
            1 <= ref_id < old(self).committed@.len(),
            query_id < old(self).output_assignments@.len(),
            old(self).output_assignments@[query_id as int] is None,
            score <= 1000 + MAX_SCORE,
        ensures
            final(self).wf(),
            final(self).output_assignments@ == old(self).output_assignments@.update(
                query_id as int,
                Option::Some(Assign::Target(ref_id)),
            ),
            final(self).committed@ == old(self).committed@.update(
                ref_id as int,
                (old(self).committed@[ref_id as int] + 1) as u64,
            ),
            final(self).abundance@ == old(self).abundance@,
            final(self).query_size == old(self).query_size,
            final(self).free_commits@ == old(self).free_commits@.update(
                ref_id as int,
                old(self).free_commits@[ref_id as int] + 1,
            ),
            final(self).assignments@.len() == old(self).assignments@.len(),
            forall|r: int|
                0 <= r < old(self).assignments@.len() && r != ref_id
                    ==> #[trigger] final(self).assignments@[r] == old(self).assignments@[r],
            final(self).assignments@[ref_id as int]@.to_multiset() == old(self).assignments@[
                ref_id as int]@.to_multiset().insert((score, query_id)),
    {
        proof {
            self.lemma_committed_bound(ref_id as int);
            lemma_count_none_update(
                self.output_assignments@,
                query_id as int,
                Assign::Target(ref_id),
            );
            lemma_count_none_nonneg(self.output_assignments@);
            lemma_sum_free_update(
                self.free_commits@,
                ref_id as int,
                self.free_commits@[ref_id as int] + 1,
            );
        }
        let cur = self.committed[ref_id];
        self.committed[ref_id] = cur + 1;
        insert_entry(&mut self.assignments[ref_id], score, query_id);
        self.output_assignments[query_id] = Some(Assign::Target(ref_id));
        proof {
            self.free_commits@ = self.free_commits@.update(
                ref_id as int,
                self.free_commits@[ref_id as int] + 1,
            );
        }
    }

    /// Records a sentinel outcome for an uncommitted read.
    pub fn add_sentinel(&mut self, query_id: usize, outcome: Assign)
        requires
            old(self).wf(),
            query_id < old(self).output_assignments@.len(),
            old(self).output_assignments@[query_id as int] is None,
            outcome is UnmappedByAligner || outcome is UnassignedByPolicy,
        ensures
            final(self).wf(),
            final(self).output_assignments@ == old(self).output_assignments@.update(
                query_id as int,
                Option::Some(outcome),
            ),
            final(self).committed@ == old(self).committed@,
            final(self).abundance@ == old(self).abundance@,
            final(self).query_size == old(self).query_size,
            final(self).free_commits@ == old(self).free_commits@,
            final(self).assignments@ == old(self).assignments@,
    {
        proof {
            lemma_count_none_update(self.output_assignments@, query_id as int, outcome);
            lemma_count_none_nonneg(self.output_assignments@);
        }
        self.output_assignments[query_id] = Some(outcome);
    }

    /// Takes a previously committed read out of a reference's slots (the
    /// first half of a swap; its output cell is rewritten by the re-add).
    pub fn remove_assignment(&mut self, ref_id: usize, query_id: usize, score: u64)
        requires
            old(self).wf(),
            1 <= ref_id < old(self).committed@.len(),
            old(self).assignments@[ref_id as int]@.contains((score, query_id)),
        ensures
            final(self).wf(),
            final(self).output_assignments@ == old(self).output_assignments@,
            final(self).committed@ == old(self).committed@.update(
                ref_id as int,
                (old(self).committed@[ref_id as int] - 1) as u64,
            ),
            final(self).abundance@ == old(self).abundance@,
            final(self).query_size == old(self).query_size,
            final(self).free_commits@ == old(self).free_commits@,
            final(self).assignments@.len() == old(self).assignments@.len(),
            forall|r: int|
                0 <= r < old(self).assignments@.len() && r != ref_id
                    ==> #[trigger] final(self).assignments@[r] == old(self).assignments@[r],
            final(self).assignments@[ref_id as int]@.to_multiset() == old(self).assignments@[
                ref_id as int]@.to_multiset().remove((score, query_id)),
    {
        proof {
            broadcast use vstd::seq_lib::group_to_multiset_ensures;

            assert(old(self).assignments@[ref_id as int]@.len() >= 1) by {
                assert(old(self).assignments@[ref_id as int]@.to_multiset().count(
                    (score, query_id),
                ) > 0);
            }
            assert(self.committed@[ref_id as int] >= 1);
        }
        let found = remove_entry(&mut self.assignments[ref_id], score, query_id);
        let cur = self.committed[ref_id];
        self.committed[ref_id] = cur - 1;
        proof {
            assert(self.committed@[ref_id as int] * SCALE < self.abundance@[ref_id as int]
                * self.query_size + 2 * SCALE + self.free_commits@[ref_id as int] * SCALE)
                by (nonlinear_arith)
                requires
                    (self.committed@[ref_id as int] + 1) * SCALE < self.abundance@[ref_id as int]
                        * self.query_size + 2 * SCALE + self.free_commits@[ref_id as int] * SCALE,
                    self.committed@[ref_id as int] >= 0,
            ;
        }
    }

    /// Re-commits a displaced read under another reference that has space
    /// (the second half of a swap: its output cell is rewritten).
    pub fn move_assignment(&mut self, query_id: usize, ref_id: usize, score: u64)
        requires
            old(self).wf(),
            1 <= ref_id < old(self).committed@.len(),
            query_id < old(self).output_assignments@.len(),
            score <= 1000 + MAX_SCORE,
            (old(self).committed@[ref_id as int] as int) * SCALE < (old(self).abundance@[
                ref_id as int] as int) * old(self).query_size + SCALE,
        ensures
            final(self).wf(),
            final(self).output_assignments@ == old(self).output_assignments@.update(
                query_id as int,
                Option::Some(Assign::Target(ref_id)),
            ),
            final(self).committed@ == old(self).committed@.update(
                ref_id as int,
                (old(self).committed@[ref_id as int] + 1) as u64,
            ),
            final(self).abundance@ == old(self).abundance@,
            final(self).query_size == old(self).query_size,
            final(self).free_commits@ == old(self).free_commits@,
            final(self).assignments@.len() == old(self).assignments@.len(),
            forall|r: int|
                0 <= r < old(self).assignments@.len() && r != ref_id
                    ==> #[trigger] final(self).assignments@[r] == old(self).assignments@[r],
    {
        proof {
            self.lemma_committed_bound(ref_id as int);
            if self.output_assignments@[query_id as int] is Some {
                lemma_count_none_update_some(
                    self.output_assignments@,
                    query_id as int,
                    Assign::Target(ref_id),
                );
            } else {
                lemma_count_none_update(
                    self.output_assignments@,
                    query_id as int,
                    Assign::Target(ref_id),
                );
            }
            lemma_count_none_nonneg(self.output_assignments@);
        }
        let cur = self.committed[ref_id];
        self.committed[ref_id] = cur + 1;
        insert_entry(&mut self.assignments[ref_id], score, query_id);
        self.output_assignments[query_id] = Some(Assign::Target(ref_id));
    }

    /// Fills the slot a swap just opened: the reference's committed count
    /// returns to what the capacity rule already admitted.
    pub fn add_assignment_swapped(&mut self, query_id: usize, ref_id: usize, score: u64)
        requires
            old(self).wf(),
            1 <= ref_id < old(self).committed@.len(),
            query_id < old(self).output_assignments@.len(),
            old(self).output_assignments@[query_id as int] is None,
            score <= 1000 + MAX_SCORE,
            ((old(self).committed@[ref_id as int] + 1) as int) * SCALE < (old(self).abundance@[
                ref_id as int] as int) * old(self).query_size + 2 * SCALE + old(
                self,
            ).free_commits@[ref_id as int] * SCALE,
        ensures
            final(self).wf(),
            final(self).output_assignments@ == old(self).output_assignments@.update(
                query_id as int,
                Option::Some(Assign::Target(ref_id)),
            ),
            final(self).committed@ == old(self).committed@.update(
                ref_id as int,
                (old(self).committed@[ref_id as int] + 1) as u64,
            ),
            final(self).abundance@ == old(self).abundance@,
            final(self).query_size == old(self).query_size,
            final(self).free_commits@ == old(self).free_commits@,
            final(self).assignments@.len() == old(self).assignments@.len(),
            forall|r: int|
                0 <= r < old(self).assignments@.len() && r != ref_id
                    ==> #[trigger] final(self).assignments@[r] == old(self).assignments@[r],
    {
        proof {
            self.lemma_committed_bound(ref_id as int);
            lemma_count_none_update(
                self.output_assignments@,
                query_id as int,
                Assign::Target(ref_id),
            );
            lemma_count_none_nonneg(self.output_assignments@);
        }
        let cur = self.committed[ref_id];
        self.committed[ref_id] = cur + 1;
        insert_entry(&mut self.assignments[ref_id], score, query_id);
        self.output_assignments[query_id] = Some(Assign::Target(ref_id));
    }
}

} // verus!

verus! {

/// Read tables acceptable to the assignment engine: well-formed reads whose
/// mapping targets all lie inside the machine's reference range.
pub open spec fn queries_ok(qs: Seq<Query>, nrefs: int) -> bool {
    &&& qs.len() <= MAX_RECORDS
    &&& crate::readers::total_mappings(qs) <= MAX_RECORDS
    &&& forall|i: int| 0 <= i < qs.len() ==> (#[trigger] qs[i]).wf()
    &&& forall|i: int, j: int|
        0 <= i < qs.len() && 0 <= j < qs[i].mappings@.len() ==> 1 <= (#[trigger] qs[
            i].mappings@[j]).reference_id <= nrefs
}

impl AssignmentMachine {
    /// Phase one: a read with exactly one mapping is committed to it with a
    /// synthetic high score, outside the capacity rule; an unmapped read is
    /// committed to the unmapped sentinel. Multi-mapped reads are left open.
    #[verifier::loop_isolation(false)]
    pub fn initial_assignment(&mut self, queries: &Vec<Query>)
        requires
            old(self).wf(),
            queries_ok(queries@, old(self).abundance@.len() - 1),
            old(self).output_assignments@.len() == queries@.len(),
            forall|q: int|
                0 <= q < queries@.len() ==> (#[trigger] old(self).output_assignments@[q]) is None,
        ensures
            final(self).wf(),
            final(self).abundance@ == old(self).abundance@,
            final(self).query_size == old(self).query_size,
            final(self).output_assignments@.len() == queries@.len(),
            forall|q: int|
                0 <= q < queries@.len() && queries@[q].mappings@.len() == 1
                    ==> #[trigger] final(self).output_assignments@[q] == Option::Some(
                    Assign::Target(queries@[q].mappings@[0].reference_id),
                ),
            forall|q: int|
                0 <= q < queries@.len() && queries@[q].mappings@.len() == 0
                    ==> #[trigger] final(self).output_assignments@[q] == Option::Some(
                    Assign::UnmappedByAligner,
                ),
            forall|q: int|
                0 <= q < queries@.len() && queries@[q].mappings@.len() > 1
                    ==> (#[trigger] final(self).output_assignments@[q]) is None,
    {
        let n = queries.len();
        let mut q: usize = 0;
        while q < n
            invariant
                0 <= q <= n,
                n == queries@.len(),
                self.wf(),
                self.abundance@ == old(self).abundance@,
                self.query_size == old(self).query_size,
                self.output_assignments@.len() == n,
                forall|k: int|
                    q <= k < n ==> (#[trigger] self.output_assignments@[k]) is None,
                forall|k: int|
                    0 <= k < q && queries@[k].mappings@.len() == 1
                        ==> #[trigger] self.output_assignments@[k] == Option::Some(
                        Assign::Target(queries@[k].mappings@[0].reference_id),
                    ),
                forall|k: int|
                    0 <= k < q && queries@[k].mappings@.len() == 0
                        ==> #[trigger] self.output_assignments@[k] == Option::Some(
                        Assign::UnmappedByAligner,
                    ),
                forall|k: int|
                    0 <= k < q && queries@[k].mappings@.len() > 1
                        ==> (#[trigger] self.output_assignments@[k]) is None,
            decreases n - q,
        {
            let cnt = queries[q].mappings.len();
            if cnt == 1 {
                let m = queries[q].mappings[0];
                proof {
                    assert(queries@[q as int].mappings@[0] == m);
                    assert(m.score <= MAX_SCORE);
                }
                self.add_assignment_free(q, m.reference_id, 1000);
            } else if cnt == 0 {
                self.add_sentinel(q, Assign::UnmappedByAligner);
            }
            q = q + 1;
        }
    }

    /// Phase two: a still-open read whose best mapping dominates its second
    /// best by more than `score_max_diff` (in millionths, relative to the
    /// best score) is committed to the best mapping's reference, provided
    /// that reference has space.
    #[verifier::loop_isolation(false)]
    pub fn secondary_assignment(&mut self, queries: &Vec<Query>, score_max_diff: u64)
        requires
            old(self).wf(),
            queries_ok(queries@, old(self).abundance@.len() - 1),
            old(self).output_assignments@.len() == queries@.len(),
            score_max_diff <= SCALE,
        ensures
            final(self).wf(),
            final(self).abundance@ == old(self).abundance@,
            final(self).query_size == old(self).query_size,
            final(self).output_assignments@.len() == queries@.len(),
            forall|q: int|
                0 <= q < queries@.len() && (#[trigger] old(self).output_assignments@[q]) is Some
                    ==> final(self).output_assignments@[q] == old(self).output_assignments@[q],
            forall|q: int|
                0 <= q < queries@.len() && (#[trigger] old(self).output_assignments@[q]) is None
                    ==> (final(self).output_assignments@[q] is None || (
                    final(self).output_assignments@[q] == Option::Some(
                        Assign::Target(
                            queries@[q].mappings@[
                                crate::readers::first_max_idx(queries@[q].mappings@)].reference_id,
                        ),
                    ) && dominant_best(queries@[q], score_max_diff))),
            forall|q: int|
                0 <= q < queries@.len() && (#[trigger] old(self).output_assignments@[q]) is None
                    && dominant_best(queries@[q], score_max_diff) && final(self).has_room(
                    best_ref(queries@[q]),
                ) ==> final(self).output_assignments@[q] == Option::Some(
                    Assign::Target(
                        queries@[q].mappings@[
                            crate::readers::first_max_idx(queries@[q].mappings@)].reference_id,
                    ),
                ),
            forall|r: int|
                0 <= r < old(self).committed@.len() ==> final(self).committed@[r] >= old(
                    self,
                ).committed@[r],
            final(self).committed@.len() == old(self).committed@.len(),
    {
        let n = queries.len();
        let mut q: usize = 0;
        while q < n
            invariant
                0 <= q <= n,
                n == queries@.len(),
                self.wf(),
                self.abundance@ == old(self).abundance@,
                self.query_size == old(self).query_size,
                self.output_assignments@.len() == n,
                self.committed@.len() == old(self).committed@.len(),
                forall|r: int|
                    0 <= r < old(self).committed@.len() ==> self.committed@[r] >= old(
                        self,
                    ).committed@[r],
                forall|k: int|
                    0 <= k < n && (#[trigger] old(self).output_assignments@[k]) is Some
                        ==> self.output_assignments@[k] == old(self).output_assignments@[k],
                forall|k: int|
                    0 <= k < n && (#[trigger] old(self).output_assignments@[k]) is None ==> (
                    self.output_assignments@[k] is None || (self.output_assignments@[k]
                        == Option::Some(
                        Assign::Target(
                            queries@[k].mappings@[
                                crate::readers::first_max_idx(queries@[k].mappings@)].reference_id,
                        ),
                    ) && dominant_best(queries@[k], score_max_diff))),
                forall|k: int|
                    0 <= k < q && (#[trigger] old(self).output_assignments@[k]) is None
                        && dominant_best(queries@[k], score_max_diff) && self.has_room(
                        best_ref(queries@[k]),
                    ) ==> self.output_assignments@[k] == Option::Some(
                        Assign::Target(
                            queries@[k].mappings@[
                                crate::readers::first_max_idx(queries@[k].mappings@)].reference_id,
                        ),
                    ),
            decreases n - q,
        {
            let is_open = match self.output_assignments[q] {
                Option::Some(_) => false,
                Option::None => true,
            };
            if is_open {
                let (ref_id, score) = assign_best(&queries[q], self, score_max_diff);
                if ref_id != 0 {
                    let ghost pre = *self;
                    self.add_assignment(q, ref_id, score);
                    proof {
                        pre.lemma_committed_bound(ref_id as int);
                        assert(self.committed@[ref_id as int] == pre.committed@[ref_id as int]
                            + 1);
                        assert forall|k: int|
                            0 <= k < q && (#[trigger] old(self).output_assignments@[k]) is None
                                && dominant_best(queries@[k], score_max_diff) && self.has_room(
                                best_ref(queries@[k]),
                            ) implies self.output_assignments@[k] == Option::Some(
                            Assign::Target(
                                queries@[k].mappings@[
                                    crate::readers::first_max_idx(
                                        queries@[k].mappings@,
                                    )].reference_id,
                            ),
                        ) by {
                            let br = best_ref(queries@[k]);
                            crate::readers::lemma_first_max_idx_bounds(queries@[k].mappings@);
                            assert(1 <= br < pre.committed@.len());
                            assert(pre.committed@[br] <= self.committed@[br]);
                            assert((pre.committed@[br] as int) * SCALE <= (self.committed@[
                                br] as int) * SCALE) by (nonlinear_arith)
                                requires pre.committed@[br] <= self.committed@[br];
                            assert(pre.has_room(br));
                        }
                    }
                }
            }
            q = q + 1;
        }
    }
}

/// A read has a dominant best mapping: its first best score is positive and
/// exceeds the second best by more than the threshold share of itself.
pub open spec fn dominant_best(q: Query, score_max_diff: u64) -> bool {
    let ms = q.mappings@;
    let i = crate::readers::first_max_idx(ms);
    &&& ms.len() > 0
    &&& ms[i].score > 0
    &&& (ms[i].score - crate::readers::max_except(ms, i)) * SCALE > score_max_diff * ms[i].score
}

/// The reference elected by the dominant-best rule: the target of the first
/// mapping holding the highest score.
pub open spec fn best_ref(q: Query) -> int {
    q.mappings@[crate::readers::first_max_idx(q.mappings@)].reference_id as int
}

/// Finds the dominant best mapping of a read: exactly when the best score
/// is positive, exceeds the second best by more than the threshold share
/// and the best reference has space, returns that reference and score;
/// otherwise `(0, 0)` (0 is the reserved none id).
pub fn assign_best(query: &Query, machine: &AssignmentMachine, score_max_diff: u64) -> (r: (
    usize,
    u64,
))
    requires
        machine.wf(),
        query.wf(),
        forall|j: int|
            0 <= j < query.mappings@.len() ==> 1 <= (#[trigger] query.mappings@[j]).reference_id
                < machine.committed@.len(),
        score_max_diff <= SCALE,
    ensures
        r.0 != 0 ==> {
            &&& exists|j: int|
                0 <= j < query.mappings@.len() && (#[trigger] query.mappings@[j]).reference_id
                    == r.0 && query.mappings@[j].score == r.1
            &&& (machine.committed@[r.0 as int] as int) * SCALE < (machine.abundance@[
                r.0 as int] as int) * machine.query_size + SCALE
            &&& r.1 <= MAX_SCORE
        },
        (r.0 != 0) == (dominant_best(*query, score_max_diff) && machine.has_room(best_ref(*query))),
        r.0 != 0 ==> r.0 as int == best_ref(*query) && r.1 == query.mappings@[
            crate::readers::first_max_idx(query.mappings@)].score,
{
    if query.mappings.len() == 0 {
        return (0, 0);
    }
    let (r1, s1, _r2, s2) = query.get_best_mappings();
    if s1 == 0 {
        return (0, 0);
    }
    proof {
        assert(s1 <= MAX_SCORE);
        assert((s1 - s2) * SCALE <= MAX_SCORE * SCALE) by (nonlinear_arith)
            requires 0 <= s1 - s2 <= MAX_SCORE;
        assert(score_max_diff * s1 <= SCALE * MAX_SCORE) by (nonlinear_arith)
            requires score_max_diff <= SCALE, s1 <= MAX_SCORE;
    }
    if (s1 - s2) * crate::SCALE > score_max_diff * s1 {
        if machine.has_space(r1) {
            (r1, s1)
        } else {
            (0, 0)
        }
    } else {
        (0, 0)
    }
}

} // verus!

verus! {

impl AssignmentMachine {
    /// Collects, over all still-open reads, every mapping whose reference
    /// currently has space, as (score, read, reference) entries in read
    /// order: one entry for each such mapping, and nothing else.
    #[verifier::loop_isolation(false)]
    pub fn build_score_entries(&self, queries: &Vec<Query>) -> (r: Vec<(u64, usize, usize)>)
        requires
            self.wf(),
            queries_ok(queries@, self.abundance@.len() - 1),
            self.output_assignments@.len() == queries@.len(),
        ensures
            forall|k: int|
                0 <= k < r@.len() ==> {
                    &&& (#[trigger] r@[k]).1 < queries@.len()
                    &&& 1 <= r@[k].2 < self.committed@.len()
                    &&& r@[k].0 <= MAX_SCORE
                    &&& exists|j: int|
                        0 <= j < queries@[r@[k].1 as int].mappings@.len() && (
                        #[trigger] queries@[r@[k].1 as int].mappings@[j]).reference_id == r@[k].2
                            && queries@[r@[k].1 as int].mappings@[j].score == r@[k].0
                },
            forall|q: int, j: int|
                0 <= q < queries@.len() && (#[trigger] self.output_assignments@[q]) is None && 0
                    <= j < queries@[q].mappings@.len() && self.has_room(
                    (#[trigger] queries@[q].mappings@[j]).reference_id as int,
                ) ==> r@.contains(
                    (
                        queries@[q].mappings@[j].score,
                        q as usize,
                        queries@[q].mappings@[j].reference_id,
                    ),
                ),
    {
        let mut out: Vec<(u64, usize, usize)> = Vec::new();
        let n = queries.len();
        let mut q: usize = 0;
        while q < n
            invariant
                0 <= q <= n,
                n == queries@.len(),
                forall|k: int|
                    0 <= k < out@.len() ==> {
                        &&& (#[trigger] out@[k]).1 < queries@.len()
                        &&& 1 <= out@[k].2 < self.committed@.len()
                        &&& out@[k].0 <= MAX_SCORE
                        &&& exists|j: int|
                            0 <= j < queries@[out@[k].1 as int].mappings@.len() && (
                            #[trigger] queries@[out@[k].1 as int].mappings@[j]).reference_id
                                == out@[k].2 && queries@[out@[k].1 as int].mappings@[j].score
                                == out@[k].0
                    },
                forall|q2: int, j: int|
                    0 <= q2 < q && (#[trigger] self.output_assignments@[q2]) is None && 0 <= j
                        < queries@[q2].mappings@.len() && self.has_room(
                        (#[trigger] queries@[q2].mappings@[j]).reference_id as int,
                    ) ==> out@.contains(
                        (
                            queries@[q2].mappings@[j].score,
                            q2 as usize,
                            queries@[q2].mappings@[j].reference_id,
                        ),
                    ),
            decreases n - q,
        {
            let is_open = match self.output_assignments[q] {
                Option::Some(_) => false,
                Option::None => true,
            };
            if is_open {
                let cnt = queries[q].mappings.len();
                let mut j: usize = 0;
                while j < cnt
                    invariant
                        0 <= j <= cnt,
                        0 <= q < queries@.len(),
                        cnt == queries@[q as int].mappings@.len(),
                        self.output_assignments@[q as int] is None,
                        forall|k: int|
                            0 <= k < out@.len() ==> {
                                &&& (#[trigger] out@[k]).1 < queries@.len()
                                &&& 1 <= out@[k].2 < self.committed@.len()
                                &&& out@[k].0 <= MAX_SCORE
                                &&& exists|j2: int|
                                    0 <= j2 < queries@[out@[k].1 as int].mappings@.len() && (
                                    #[trigger] queries@[out@[k].1 as int].mappings@[j2]).reference_id
                                        == out@[k].2 && queries@[out@[k].1 as int].mappings@[
                                        j2].score == out@[k].0
                            },
                        forall|q2: int, j2: int|
                            0 <= q2 < q && (#[trigger] self.output_assignments@[q2]) is None && 0
                                <= j2 < queries@[q2].mappings@.len() && self.has_room(
                                (#[trigger] queries@[q2].mappings@[j2]).reference_id as int,
                            ) ==> out@.contains(
                                (
                                    queries@[q2].mappings@[j2].score,
                                    q2 as usize,
                                    queries@[q2].mappings@[j2].reference_id,
                                ),
                            ),
                        forall|j2: int|
                            0 <= j2 < j && self.has_room(
                                (#[trigger] queries@[q as int].mappings@[j2]).reference_id as int,
                            ) ==> out@.contains(
                                (
                                    queries@[q as int].mappings@[j2].score,
                                    q,
                                    queries@[q as int].mappings@[j2].reference_id,
                                ),
                            ),
                    decreases cnt - j,
                {
                    let m = queries[q].mappings[j];
                    proof {
                        assert(queries@[q as int].mappings@[j as int] == m);
                    }
                    let ghost pre_out = out@;
                    if self.has_space(m.reference_id) {
                        out.push((m.score, q, m.reference_id));
                    }
                    proof {
                        if out@.len() > pre_out.len() {
                            assert(out@[pre_out.len() as int] == (m.score, q, m.reference_id));
                            assert forall|k: int|
                                0 <= k < pre_out.len() implies out@[k] == pre_out[k] by {}
                        }
                        assert forall|x: (u64, usize, usize)| pre_out.contains(
                            x,
                        ) implies out@.contains(x) by {
                            let k = choose|k: int| 0 <= k < pre_out.len() && pre_out[k] == x;
                            assert(out@[k] == x);
                        }
                        assert forall|k: int| 0 <= k < out@.len() implies {
                            &&& (#[trigger] out@[k]).1 < queries@.len()
                            &&& 1 <= out@[k].2 < self.committed@.len()
                            &&& out@[k].0 <= MAX_SCORE
                            &&& exists|j2: int|
                                0 <= j2 < queries@[out@[k].1 as int].mappings@.len() && (
                                #[trigger] queries@[out@[k].1 as int].mappings@[j2]).reference_id
                                    == out@[k].2 && queries@[out@[k].1 as int].mappings@[j2].score
                                    == out@[k].0
                        } by {
                            if k < pre_out.len() {
                                assert(out@[k] == pre_out[k]);
                                assert(pre_out[k].1 < queries@.len());
                            } else {
                                assert(out@[k] == (m.score, q, m.reference_id));
                                assert(m.score <= MAX_SCORE);
                                assert(1 <= m.reference_id < self.committed@.len());
                                assert(0 <= j < queries@[q as int].mappings@.len()
                                    && queries@[q as int].mappings@[j as int].reference_id
                                    == m.reference_id && queries@[q as int].mappings@[
                                    j as int].score == m.score);
                            }
                        }
                    }
                    j = j + 1;
                }
            }
            q = q + 1;
        }
        out
    }

    /// Phase three: walk the eligible (score, read, reference) entries from
    /// the highest score downward and commit each still-open read whose
    /// reference still has space. Afterwards, every entry's read is either
    /// committed or its reference is full: no read was starved of a slot
    /// that stayed open, which is the highest-score-first discipline.
    #[verifier::loop_isolation(false)]
    pub fn process_score_entries(&mut self, entries: &Vec<(u64, usize, usize)>)
        requires
            old(self).wf(),
            forall|a: int, b: int|
                0 <= a < b < entries@.len() ==> (#[trigger] entries@[a]).0 >= (
                #[trigger] entries@[b]).0,
            forall|k: int|
                0 <= k < entries@.len() ==> {
                    &&& (#[trigger] entries@[k]).1 < old(self).output_assignments@.len()
                    &&& 1 <= entries@[k].2 < old(self).committed@.len()
                    &&& entries@[k].0 <= MAX_SCORE
                },
        ensures
            final(self).wf(),
            final(self).abundance@ == old(self).abundance@,
            final(self).query_size == old(self).query_size,
            final(self).output_assignments@.len() == old(self).output_assignments@.len(),
            forall|q: int|
                0 <= q < old(self).output_assignments@.len() && (#[trigger] old(
                    self,
                ).output_assignments@[q]) is Some ==> final(self).output_assignments@[q] == old(
                    self,
                ).output_assignments@[q],
            forall|k: int|
                0 <= k < entries@.len() ==> ((#[trigger] final(self).output_assignments@[
                    entries@[k].1 as int]) is Some || !((final(self).committed@[
                    entries@[k].2 as int] as int) * SCALE < (final(self).abundance@[
                    entries@[k].2 as int] as int) * final(self).query_size + SCALE)),
            final(self).committed@.len() == old(self).committed@.len(),
            forall|r: int|
                0 <= r < old(self).committed@.len() ==> final(self).committed@[r] >= old(
                    self,
                ).committed@[r],
            forall|q: int|
                0 <= q < old(self).output_assignments@.len() ==> final(self).output_assignments@[q]
                    == old(self).output_assignments@[q] || (exists|k: int|
                    0 <= k < entries@.len() && (#[trigger] entries@[k]).1 == q
                        && final(self).output_assignments@[q] == Option::Some(
                        Assign::Target(entries@[k].2),
                    )),
    {
        let n = entries.len();
        let mut i: usize = 0;
        while i < n
            invariant
                0 <= i <= n,
                n == entries@.len(),
                self.wf(),
                self.abundance@ == old(self).abundance@,
                self.query_size == old(self).query_size,
                self.committed@.len() == old(self).committed@.len(),
                self.output_assignments@.len() == old(self).output_assignments@.len(),
                forall|q: int|
                    0 <= q < old(self).output_assignments@.len() && (#[trigger] old(
                        self,
                    ).output_assignments@[q]) is Some ==> self.output_assignments@[q] == old(
                        self,
                    ).output_assignments@[q],
                forall|k: int|
                    0 <= k < i ==> ((#[trigger] self.output_assignments@[entries@[k].1 as int])
                        is Some || !((self.committed@[entries@[k].2 as int] as int) * SCALE < (
                    self.abundance@[entries@[k].2 as int] as int) * self.query_size + SCALE)),
                forall|r: int|
                    0 <= r < old(self).committed@.len() ==> self.committed@[r] >= old(
                        self,
                    ).committed@[r],
                forall|q: int|
                    0 <= q < old(self).output_assignments@.len() ==> self.output_assignments@[q]
                        == old(self).output_assignments@[q] || (exists|k: int|
                        0 <= k < entries@.len() && (#[trigger] entries@[k]).1 == q
                            && self.output_assignments@[q] == Option::Some(
                            Assign::Target(entries@[k].2),
                        )),
            decreases n - i,
        {
            let (score, q, rid) = entries[i];
            proof {
                assert(entries@[i as int] == (score, q, rid));
            }
            let is_open = match self.output_assignments[q] {
                Option::Some(_) => false,
                Option::None => true,
            };
            if is_open && self.has_space(rid) {
                let ghost pre = *self;
                self.add_assignment(q, rid, score);
                proof {
                    pre.lemma_committed_bound(rid as int);
                    assert(self.committed@[rid as int] == pre.committed@[rid as int] + 1);
                    assert(entries@[i as int].1 == q && self.output_assignments@[q as int]
                        == Option::Some(Assign::Target(rid)));
                    assert forall|k: int|
                        0 <= k < i implies ((#[trigger] self.output_assignments@[
                        entries@[k].1 as int]) is Some || !((self.committed@[
                        entries@[k].2 as int] as int) * SCALE < (self.abundance@[
                        entries@[k].2 as int] as int) * self.query_size + SCALE)) by {
                        if pre.output_assignments@[entries@[k].1 as int] is Some {
                            assert(self.output_assignments@[entries@[k].1 as int] is Some);
                        } else {
                            assert(self.committed@[entries@[k].2 as int] >= pre.committed@[
                                entries@[k].2 as int]);
                            assert((pre.committed@[entries@[k].2 as int] as int) * SCALE <= (
                            self.committed@[entries@[k].2 as int] as int) * SCALE)
                                by (nonlinear_arith)
                                requires
                                    pre.committed@[entries@[k].2 as int] <= self.committed@[
                                        entries@[k].2 as int],
                            ;
                        }
                    }
                }
            }
            i = i + 1;
        }
    }
}

} // verus!

verus! {

/// Orders score entries by descending score, stably: among equal scores the
/// earlier entry stays first.
#[verifier::loop_isolation(false)]
fn sort_entries_desc(entries: Vec<(u64, usize, usize)>) -> (r: Vec<(u64, usize, usize)>)
    ensures
        r@.len() == entries@.len(),
        forall|a: int, b: int| 0 <= a < b < r@.len() ==> (#[trigger] r@[a]).0 >= (#[trigger] r@[b]).0,
        forall|k: int| 0 <= k < r@.len() ==> entries@.contains(#[trigger] r@[k]),
        forall|k: int| 0 <= k < entries@.len() ==> r@.contains(#[trigger] entries@[k]),
{
    let mut rest = entries;
    let ghost all = rest@;
    let mut out: Vec<(u64, usize, usize)> = Vec::new();
    proof {
        broadcast use vstd::seq_lib::group_to_multiset_ensures;
    }
    while rest.len() > 0
        invariant
            out@.len() + rest@.len() == all.len(),
            out@.to_multiset().add(rest@.to_multiset()) == all.to_multiset(),
            forall|a: int, b: int|
                0 <= a < b < out@.len() ==> (#[trigger] out@[a]).0 >= (#[trigger] out@[b]).0,
            forall|a: int, m: int|
                0 <= a < out@.len() && 0 <= m < rest@.len() ==> (#[trigger] out@[a]).0
                    >= (#[trigger] rest@[m]).0,
        decreases rest.len(),
    {
        let mut max_idx: usize = 0;
        let mut i: usize = 1;
        while i < rest.len()
            invariant
                0 <= max_idx < i <= rest@.len(),
                forall|k: int| 0 <= k < i ==> (#[trigger] rest@[k]).0 <= rest@[max_idx as int].0,
            decreases rest.len() - i,
        {
            if rest[i].0 > rest[max_idx].0 {
                max_idx = i;
            }
            i = i + 1;
        }
        let chosen = rest.remove(max_idx);
        proof {
            broadcast use vstd::seq_lib::group_to_multiset_ensures;
        }
        out.push(chosen);
        proof {
            assert(out@.to_multiset().add(rest@.to_multiset()) =~= all.to_multiset());
        }
    }
    proof {
        broadcast use vstd::seq_lib::group_to_multiset_ensures;

        assert forall|k: int| 0 <= k < out@.len() implies all.contains(#[trigger] out@[k]) by {
            assert(out@.contains(out@[k]));
            assert(out@.to_multiset().count(out@[k]) > 0);
            assert(all.to_multiset().count(out@[k]) > 0);
        }
        assert forall|k: int| 0 <= k < all.len() implies out@.contains(#[trigger] all[k]) by {
            assert(all.contains(all[k]));
            assert(all.to_multiset().count(all[k]) > 0);
            assert(!rest@.contains(all[k]));
            assert(rest@.to_multiset().count(all[k]) == 0);
            assert(out@.to_multiset().count(all[k]) > 0);
        }
    }
    out
}

impl AssignmentMachine {
    /// Looks for a committed read of `ref_id` that can profitably move to
    /// another of its own references with space: committed reads are tried
    /// by ascending committed score, and a move is profitable when the
    /// displaced read's normalised loss is smaller than the newcomer's
    /// normalised gain.
    #[verifier::loop_isolation(false)]
    fn try_open_up_space(
        &self,
        ref_id: usize,
        queries: &Vec<Query>,
        new_score: u64,
        new_total: u64,
    ) -> (r: Option<(usize, u64, usize, u64)>)
        requires
            self.wf(),
            1 <= ref_id < self.committed@.len(),
            queries_ok(queries@, self.abundance@.len() - 1),
            self.output_assignments@.len() == queries@.len(),
            new_score <= MAX_SCORE,
            new_total <= MAX_RECORDS * MAX_SCORE,
        ensures
            r matches Option::Some((q2, k, new_ref, s2)) ==> {
                &&& self.assignments@[ref_id as int]@.contains((k, q2))
                &&& q2 < queries@.len()
                &&& 1 <= new_ref < self.committed@.len()
                &&& new_ref != ref_id
                &&& s2 <= MAX_SCORE
                &&& (self.committed@[new_ref as int] as int) * SCALE < (self.abundance@[
                    new_ref as int] as int) * self.query_size + SCALE
                &&& queries@[q2 as int].total_score > 0
                &&& exists|j: int|
                    0 <= j < queries@[q2 as int].mappings@.len() && (#[trigger] queries@[
                        q2 as int].mappings@[j]).reference_id == new_ref && queries@[
                        q2 as int].mappings@[j].score == s2
                &&& 2 * (k as int) * (new_total as int) < (new_score as int) * (queries@[
                    q2 as int].total_score as int) + (s2 as int) * (new_total as int)
            },
    {
        let slots = &self.assignments[ref_id];
        let mut e: usize = 0;
        while e < slots.len()
            invariant
                0 <= e <= slots@.len(),
                slots == self.assignments@[ref_id as int],
                1 <= ref_id < self.committed@.len(),
            decreases slots.len() - e,
        {
            let (k, q2) = slots[e];
            proof {
                assert(slots@[e as int] == (k, q2));
                assert(slots@.contains((k, q2)));
            }
            let total2 = queries[q2].get_total_score();
            proof {
                crate::readers::lemma_total_mappings_elem(queries@, q2 as int);
                crate::readers::lemma_sum_scores_bounded(
                    queries@[q2 as int].mappings@,
                    MAX_SCORE as int,
                );
                assert(queries@[q2 as int].mappings@.len() * MAX_SCORE <= MAX_RECORDS * MAX_SCORE)
                    by (nonlinear_arith)
                    requires queries@[q2 as int].mappings@.len() <= MAX_RECORDS;
            }
            if total2 > 0 {
                let cnt2 = queries[q2].mappings.len();
                let mut j: usize = 0;
                while j < cnt2
                    invariant
                        0 <= j <= cnt2,
                        0 <= q2 < queries@.len(),
                        cnt2 == queries@[q2 as int].mappings@.len(),
                        slots@.contains((k, q2)),
                        slots == self.assignments@[ref_id as int],
                        1 <= ref_id < self.committed@.len(),
                        k <= 1000 + MAX_SCORE,
                        total2 <= MAX_RECORDS * MAX_SCORE,
                    decreases cnt2 - j,
                {
                    let m2 = queries[q2].mappings[j];
                    proof {
                        assert(queries@[q2 as int].mappings@[j as int] == m2);
                        assert(m2.score <= MAX_SCORE);
                    }
                    if m2.reference_id != ref_id && self.has_space(m2.reference_id) {
                        // loss to the displaced read < gain to the newcomer,
                        // both normalised by their own total scores
                        proof {
                            crate::readers::lemma_total_mappings_elem(queries@, q2 as int);
                            crate::readers::lemma_sum_scores_bounded(
                                queries@[q2 as int].mappings@,
                                MAX_SCORE as int,
                            );
                            assert(queries@[q2 as int].mappings@.len() * MAX_SCORE <= MAX_RECORDS
                                * MAX_SCORE) by (nonlinear_arith)
                                requires queries@[q2 as int].mappings@.len() <= MAX_RECORDS;
                            assert(2 * (k as int) * (new_total as int) <= 2 * (1000 + MAX_SCORE)
                                * (MAX_RECORDS * MAX_SCORE)) by (nonlinear_arith)
                                requires
                                    k <= 1000 + MAX_SCORE,
                                    new_total <= MAX_RECORDS * MAX_SCORE,
                            ;
                            assert((new_score as int) * (total2 as int) <= MAX_SCORE * (MAX_RECORDS
                                * MAX_SCORE)) by (nonlinear_arith)
                                requires
                                    new_score <= MAX_SCORE,
                                    total2 <= MAX_RECORDS * MAX_SCORE,
                            ;
                            assert((m2.score as int) * (new_total as int) <= MAX_SCORE * (
                            MAX_RECORDS * MAX_SCORE)) by (nonlinear_arith)
                                requires
                                    m2.score <= MAX_SCORE,
                                    new_total <= MAX_RECORDS * MAX_SCORE,
                            ;
                        }
                        let lhs: u128 = 2 * (k as u128) * (new_total as u128);
                        let rhs: u128 = (new_score as u128) * (total2 as u128) + (m2.score
                            as u128) * (new_total as u128);
                        if lhs < rhs {
                            return Some((q2, k, m2.reference_id, m2.score));
                        }
                    }
                    j = j + 1;
                }
            }
            e = e + 1;
        }
        None
    }

    /// Phase four: for every still-open read, in descending order of its
    /// own mapping scores, try to displace a committed read from the wanted
    /// reference onto another reference with space; on success the three
    /// moves happen together and the wanted reference's committed count is
    /// unchanged. A read whose total score is zero cannot take part.
    #[verifier::loop_isolation(false)]
    pub fn left_over_assignment(&mut self, queries: &Vec<Query>)
        requires
            old(self).wf(),
            queries_ok(queries@, old(self).abundance@.len() - 1),
            old(self).output_assignments@.len() == queries@.len(),
        ensures
            final(self).wf(),
            final(self).abundance@ == old(self).abundance@,
            final(self).query_size == old(self).query_size,
            final(self).output_assignments@.len() == queries@.len(),
            final(self).committed@.len() == old(self).committed@.len(),
            forall|r: int|
                0 <= r < old(self).committed@.len() ==> final(self).committed@[r] >= old(
                    self,
                ).committed@[r],
            forall|q: int|
                0 <= q < queries@.len() && final(self).output_assignments@[q] != old(
                    self,
                ).output_assignments@[q] ==> exists|j: int|
                    0 <= j < queries@[q].mappings@.len() && final(self).output_assignments@[q]
                        == Option::Some(
                        Assign::Target((#[trigger] queries@[q].mappings@[j]).reference_id),
                    ),
    {
        let n = queries.len();
        let mut q: usize = 0;
        while q < n
            invariant
                0 <= q <= n,
                n == queries@.len(),
                self.wf(),
                self.abundance@ == old(self).abundance@,
                self.query_size == old(self).query_size,
                self.output_assignments@.len() == n,
                self.committed@.len() == old(self).committed@.len(),
                forall|r: int|
                    0 <= r < old(self).committed@.len() ==> self.committed@[r] >= old(
                        self,
                    ).committed@[r],
                forall|q2: int|
                    0 <= q2 < n && self.output_assignments@[q2] != old(self).output_assignments@[q2]
                        ==> exists|j: int|
                        0 <= j < queries@[q2].mappings@.len() && self.output_assignments@[q2]
                            == Option::Some(
                            Assign::Target((#[trigger] queries@[q2].mappings@[j]).reference_id),
                        ),
            decreases n - q,
        {
            let is_open = match self.output_assignments[q] {
                Option::Some(_) => false,
                Option::None => true,
            };
            let total = queries[q].get_total_score();
            proof {
                crate::readers::lemma_total_mappings_elem(queries@, q as int);
                crate::readers::lemma_sum_scores_bounded(
                    queries@[q as int].mappings@,
                    MAX_SCORE as int,
                );
                assert(queries@[q as int].mappings@.len() * MAX_SCORE <= MAX_RECORDS * MAX_SCORE)
                    by (nonlinear_arith)
                    requires queries@[q as int].mappings@.len() <= MAX_RECORDS;
            }
            if is_open && total > 0 {
                let ordered = queries[q].sort_mappings();
                proof {
                    assert forall|k: int| 0 <= k < ordered@.len() implies 1 <= (
                    #[trigger] ordered@[k]).reference_id < self.committed@.len()
                        && ordered@[k].score <= MAX_SCORE by {
                        assert(queries@[q as int].mappings@.contains(ordered@[k]));
                        let w = choose|w: int|
                            0 <= w < queries@[q as int].mappings@.len() && queries@[
                                q as int].mappings@[w] == ordered@[k];
                        assert(queries@[q as int].mappings@[w].score <= MAX_SCORE);
                    }
                }
                let mut moved = false;
                let mut mi: usize = 0;
                while mi < ordered.len() && !moved
                    invariant
                        0 <= mi <= ordered@.len(),
                        self.wf(),
                        self.abundance@ == old(self).abundance@,
                        self.query_size == old(self).query_size,
                        self.output_assignments@.len() == n,
                        0 <= q < n,
                        self.committed@.len() == old(self).committed@.len(),
                        forall|r: int|
                            0 <= r < old(self).committed@.len() ==> self.committed@[r] >= old(
                                self,
                            ).committed@[r],
                        forall|q2: int|
                            0 <= q2 < n && self.output_assignments@[q2] != old(
                                self,
                            ).output_assignments@[q2] ==> exists|j: int|
                                0 <= j < queries@[q2].mappings@.len()
                                    && self.output_assignments@[q2] == Option::Some(
                                    Assign::Target(
                                        (#[trigger] queries@[q2].mappings@[j]).reference_id,
                                    ),
                                ),
                        forall|k: int|
                            0 <= k < ordered@.len() ==> 1 <= (#[trigger] ordered@[k]).reference_id
                                < self.committed@.len() && ordered@[k].score <= MAX_SCORE,
                        total <= MAX_RECORDS * MAX_SCORE,
                    decreases ordered.len() - mi,
                {
                    let m = ordered[mi];
                    let still_open = match self.output_assignments[q] {
                        Option::Some(_) => false,
                        Option::None => true,
                    };
                    if still_open {
                        match self.try_open_up_space(m.reference_id, queries, m.score, total) {
                            Some((q_moved, k_old, new_ref, s_new)) => {
                                if q_moved != q {
                                    let ghost pre = *self;
                                    proof {
                                        pre.lemma_committed_bound(m.reference_id as int);
                                        pre.lemma_committed_bound(new_ref as int);
                                        broadcast use vstd::seq_lib::group_to_multiset_ensures;

                                        assert(pre.assignments@[m.reference_id as int]@.len()
                                            >= 1) by {
                                            assert(pre.assignments@[
                                                m.reference_id as int]@.contains((k_old, q_moved)));
                                        }
                                        assert(pre.committed@[m.reference_id as int] >= 1);
                                    }
                                    self.remove_assignment(m.reference_id, q_moved, k_old);
                                    proof {
                                        assert(self.committed@[new_ref as int] == pre.committed@[
                                            new_ref as int]);
                                    }
                                    self.move_assignment(q_moved, new_ref, s_new);
                                    proof {
                                        assert(self.committed@[m.reference_id as int]
                                            == pre.committed@[m.reference_id as int] - 1);
                                    }
                                    self.add_assignment_swapped(q, m.reference_id, m.score);
                                    moved = true;
                                    proof {
                                        assert(self.committed@[m.reference_id as int]
                                            == pre.committed@[m.reference_id as int]);
                                        assert(self.committed@[new_ref as int] == pre.committed@[
                                            new_ref as int] + 1);
                                        assert(self.output_assignments@[q_moved as int]
                                            == Option::Some(Assign::Target(new_ref)));
                                        assert(self.output_assignments@[q as int] == Option::Some(
                                            Assign::Target(m.reference_id),
                                        ));
                                        assert(queries@[q as int].mappings@.contains(m));
                                        assert forall|q2: int|
                                            0 <= q2 < n && self.output_assignments@[q2] != old(
                                                self,
                                            ).output_assignments@[q2] implies exists|j: int|
                                            0 <= j < queries@[q2].mappings@.len()
                                                && self.output_assignments@[q2] == Option::Some(
                                                Assign::Target(
                                                    (#[trigger] queries@[
                                                        q2].mappings@[j]).reference_id,
                                                ),
                                            ) by {
                                            if q2 != q && q2 != q_moved {
                                                assert(self.output_assignments@[q2]
                                                    == pre.output_assignments@[q2]);
                                            } else if q2 == q {
                                                let j = choose|j: int|
                                                    0 <= j < queries@[q as int].mappings@.len()
                                                        && queries@[q as int].mappings@[j] == m;
                                                assert(queries@[q2].mappings@[j].reference_id
                                                    == m.reference_id);
                                            }
                                        }
                                    }
                                }
                            },
                            None => {},
                        }
                    }
                    mi = mi + 1;
                }
            }
            q = q + 1;
        }
    }

    /// Phase five: every read still open is resolved by the configured
    /// policy: left as unassigned-by-policy, or committed to one of its
    /// mappings drawn at random with probability proportional to score. A
    /// read whose scores are all zero is unassigned either way.
    #[verifier::loop_isolation(false)]
    pub fn final_assignment(&mut self, queries: &Vec<Query>, prob_fallback: bool)
        requires
            old(self).wf(),
            queries_ok(queries@, old(self).abundance@.len() - 1),
            old(self).output_assignments@.len() == queries@.len(),
        ensures
            final(self).wf(),
            final(self).abundance@ == old(self).abundance@,
            final(self).query_size == old(self).query_size,
            final(self).output_assignments@.len() == queries@.len(),
            forall|k: int|
                0 <= k < queries@.len() ==> (#[trigger] final(self).output_assignments@[k]) is Some,
            forall|k: int|
                0 <= k < queries@.len() && (#[trigger] old(self).output_assignments@[k]) is Some
                    ==> final(self).output_assignments@[k] == old(self).output_assignments@[k],
            !prob_fallback ==> {
                &&& final(self).committed@ == old(self).committed@
                &&& final(self).assignments@ == old(self).assignments@
                &&& final(self).free_commits@ == old(self).free_commits@
                &&& forall|k: int|
                    0 <= k < queries@.len() && (#[trigger] old(self).output_assignments@[k]) is None
                        ==> final(self).output_assignments@[k] == Option::Some(
                        Assign::UnassignedByPolicy,
                    )
            },
            final(self).committed@.len() == old(self).committed@.len(),
            forall|r: int|
                0 <= r < old(self).committed@.len() ==> final(self).committed@[r] >= old(
                    self,
                ).committed@[r],
            forall|k: int|
                0 <= k < queries@.len() && (#[trigger] old(self).output_assignments@[k]) is None
                    ==> (final(self).output_assignments@[k] == Option::Some(
                    Assign::UnassignedByPolicy,
                ) || exists|j: int|
                    0 <= j < queries@[k].mappings@.len() && final(self).output_assignments@[k]
                        == Option::Some(
                        Assign::Target((#[trigger] queries@[k].mappings@[j]).reference_id),
                    ) && queries@[k].mappings@[j].score > 0),
            prob_fallback ==> forall|k: int|
                0 <= k < queries@.len() && (#[trigger] old(self).output_assignments@[k]) is None
                    && final(self).output_assignments@[k] == Option::Some(
                    Assign::UnassignedByPolicy,
                ) ==> (queries@[k].mappings@.len() == 0 || queries@[k].total_score == 0),
    {
        let n = queries.len();
        let mut q: usize = 0;
        while q < n
            invariant
                0 <= q <= n,
                n == queries@.len(),
                self.wf(),
                self.abundance@ == old(self).abundance@,
                self.query_size == old(self).query_size,
                self.output_assignments@.len() == n,
                self.committed@.len() == old(self).committed@.len(),
                forall|r: int|
                    0 <= r < old(self).committed@.len() ==> self.committed@[r] >= old(
                        self,
                    ).committed@[r],
                !prob_fallback ==> {
                    &&& self.committed@ == old(self).committed@
                    &&& self.assignments@ == old(self).assignments@
                    &&& self.free_commits@ == old(self).free_commits@
                    &&& forall|k: int|
                        0 <= k < q && (#[trigger] old(self).output_assignments@[k]) is None
                            ==> self.output_assignments@[k] == Option::Some(
                            Assign::UnassignedByPolicy,
                        )
                },
                forall|k: int|
                    0 <= k < q ==> (#[trigger] self.output_assignments@[k]) is Some,
                forall|k: int|
                    0 <= k < n && (#[trigger] old(self).output_assignments@[k]) is Some
                        ==> self.output_assignments@[k] == old(self).output_assignments@[k],
                forall|k: int|
                    0 <= k < q && (#[trigger] old(self).output_assignments@[k]) is None ==> (
                    self.output_assignments@[k] == Option::Some(Assign::UnassignedByPolicy)
                        || exists|j: int|
                        0 <= j < queries@[k].mappings@.len() && self.output_assignments@[k]
                            == Option::Some(
                            Assign::Target((#[trigger] queries@[k].mappings@[j]).reference_id),
                        ) && queries@[k].mappings@[j].score > 0),
                prob_fallback ==> forall|k: int|
                    0 <= k < q && (#[trigger] old(self).output_assignments@[k]) is None
                        && self.output_assignments@[k] == Option::Some(Assign::UnassignedByPolicy)
                        ==> (queries@[k].mappings@.len() == 0 || queries@[k].total_score == 0),
                forall|k: int|
                    q <= k < n && (#[trigger] old(self).output_assignments@[k]) is None
                        ==> self.output_assignments@[k] is None,
            decreases n - q,
        {
            let is_open = match self.output_assignments[q] {
                Option::Some(_) => false,
                Option::None => true,
            };
            if is_open {
                if !prob_fallback {
                    self.add_sentinel(q, Assign::UnassignedByPolicy);
                } else {
                    let cnt = queries[q].mappings.len();
                    let total = queries[q].get_total_score();
                    if cnt == 0 || total == 0 {
                        self.add_sentinel(q, Assign::UnassignedByPolicy);
                    } else {
                        let mut scores: Vec<u64> = Vec::new();
                        let mut j: usize = 0;
                        while j < cnt
                            invariant
                                0 <= j <= cnt,
                                0 <= q < queries@.len(),
                                cnt == queries@[q as int].mappings@.len(),
                                scores@.len() == j,
                                forall|k: int|
                                    0 <= k < j ==> #[trigger] scores@[k] == queries@[
                                        q as int].mappings@[k].score,
                            decreases cnt - j,
                        {
                            scores.push(queries[q].mappings[j].score);
                            j = j + 1;
                        }
                        let mut any_pos = false;
                        let mut j2: usize = 0;
                        while j2 < cnt
                            invariant
                                0 <= j2 <= cnt,
                                scores@.len() == cnt,
                                any_pos ==> exists|k: int|
                                    0 <= k < scores@.len() && #[trigger] scores@[k] > 0,
                                !any_pos ==> forall|k: int| 0 <= k < j2 ==> #[trigger] scores@[k]
                                    == 0,
                            decreases cnt - j2,
                        {
                            if scores[j2] > 0 {
                                any_pos = true;
                            }
                            j2 = j2 + 1;
                        }
                        if !any_pos {
                            proof {
                                assert forall|k: int|
                                    0 <= k < queries@[q as int].mappings@.len() implies (
                                #[trigger] queries@[q as int].mappings@[k]).score <= 0 by {
                                    assert(scores@[k] == 0);
                                }
                                crate::readers::lemma_sum_scores_bounded(
                                    queries@[q as int].mappings@,
                                    0,
                                );
                                assert(queries@[q as int].total_score == 0);
                                assert(false);
                            }
                            self.add_sentinel(q, Assign::UnassignedByPolicy);
                        } else {
                            proof {
                                crate::readers::lemma_total_mappings_elem(queries@, q as int);
                                assert forall|k: int|
                                    0 <= k < scores@.len() implies #[trigger] scores@[k]
                                    <= MAX_SCORE by {
                                    assert(queries@[q as int].mappings@[k].score <= MAX_SCORE);
                                }
                            }
                            let chosen = crate::sampling::choose_weighted(&scores);
                            let m = queries[q].mappings[chosen];
                            let ghost pre = *self;
                            proof {
                                assert(queries@[q as int].mappings@[chosen as int] == m);
                                assert(m.score <= MAX_SCORE);
                                assert(scores@[chosen as int] == m.score);
                                assert(m.score > 0);
                                pre.lemma_committed_bound(m.reference_id as int);
                            }
                            self.add_assignment_free(q, m.reference_id, m.score);
                            proof {
                                assert(self.committed@[m.reference_id as int] == pre.committed@[
                                    m.reference_id as int] + 1);
                            }
                        }
                    }
                }
            }
            q = q + 1;
        }
    }

    /// Phases three to five together: the score-ordered greedy pass, the
    /// swap pass, and the fallback policy. Afterwards every read has an
    /// outcome; a read committed to a reference is committed to one of its
    /// own mappings' references (or keeps its earlier commitment); and under
    /// the leave-open policy a read left unassigned had, for every one of
    /// its mappings, a reference without room.
    pub fn assign_based_on_abundance(&mut self, queries: &Vec<Query>, prob_fallback: bool)
        requires
            old(self).wf(),
            queries_ok(queries@, old(self).abundance@.len() - 1),
            old(self).output_assignments@.len() == queries@.len(),
        ensures
            final(self).wf(),
            final(self).abundance@ == old(self).abundance@,
            final(self).query_size == old(self).query_size,
            final(self).output_assignments@.len() == queries@.len(),
            forall|k: int|
                0 <= k < queries@.len() ==> (#[trigger] final(self).output_assignments@[k]) is Some,
            forall|q: int|
                0 <= q < queries@.len() && final(self).output_assignments@[q] != old(
                    self,
                ).output_assignments@[q] ==> (final(self).output_assignments@[q] == Option::Some(
                    Assign::UnassignedByPolicy,
                ) || exists|j: int|
                    0 <= j < queries@[q].mappings@.len() && final(self).output_assignments@[q]
                        == Option::Some(
                        Assign::Target((#[trigger] queries@[q].mappings@[j]).reference_id),
                    )),
            forall|q: int|
                0 <= q < queries@.len() && (#[trigger] old(self).output_assignments@[q]) is Some
                    && !(old(self).output_assignments@[q] == Option::Some(
                    Assign::UnassignedByPolicy,
                )) ==> final(self).output_assignments@[q] != Option::Some(
                    Assign::UnassignedByPolicy,
                ),
            !prob_fallback ==> forall|q: int, j: int|
                0 <= q < queries@.len() && (#[trigger] old(self).output_assignments@[q]) is None
                    && final(self).output_assignments@[q] == Option::Some(
                    Assign::UnassignedByPolicy,
                ) && 0 <= j < queries@[q].mappings@.len() ==> !final(self).has_room(
                    (#[trigger] queries@[q].mappings@[j]).reference_id as int,
                ),
            prob_fallback ==> forall|q: int|
                0 <= q < queries@.len() && (#[trigger] old(self).output_assignments@[q]) is None
                    && final(self).output_assignments@[q] == Option::Some(
                    Assign::UnassignedByPolicy,
                ) ==> (queries@[q].mappings@.len() == 0 || queries@[q].total_score == 0),
    {
        let ghost s0 = *self;
        let entries = self.build_score_entries(queries);
        let ordered = sort_entries_desc(entries);
        proof {
            assert forall|k: int|
                0 <= k < ordered@.len() implies (#[trigger] ordered@[k]).1
                    < self.output_assignments@.len() && 1 <= ordered@[k].2 < self.committed@.len()
                    && ordered@[k].0 <= MAX_SCORE by {
                assert(entries@.contains(ordered@[k]));
                let w = choose|w: int| 0 <= w < entries@.len() && entries@[w] == ordered@[k];
                assert(entries@[w].1 < queries@.len());
            }
        }
        self.process_score_entries(&ordered);
        let ghost s1 = *self;
        self.left_over_assignment(queries);
        let ghost s2 = *self;
        self.final_assignment(queries, prob_fallback);
        proof {
            let qs = queries@;
            // a cell that changed holds the fallback sentinel or one of the
            // read's own references
            assert forall|q: int|
                0 <= q < qs.len() && self.output_assignments@[q] != s0.output_assignments@[q]
                implies (self.output_assignments@[q] == Option::Some(Assign::UnassignedByPolicy)
                || exists|j: int|
                0 <= j < qs[q].mappings@.len() && self.output_assignments@[q] == Option::Some(
                    Assign::Target((#[trigger] qs[q].mappings@[j]).reference_id),
                )) by {
                if self.output_assignments@[q] == s2.output_assignments@[q] {
                    if s2.output_assignments@[q] == s1.output_assignments@[q] {
                        assert(s1.output_assignments@[q] != s0.output_assignments@[q]);
                        let k = choose|k: int|
                            0 <= k < ordered@.len() && (#[trigger] ordered@[k]).1 == q
                                && s1.output_assignments@[q] == Option::Some(
                                Assign::Target(ordered@[k].2),
                            );
                        assert(entries@.contains(ordered@[k]));
                        let w = choose|w: int|
                            0 <= w < entries@.len() && entries@[w] == ordered@[k];
                        assert(exists|j: int|
                            0 <= j < qs[entries@[w].1 as int].mappings@.len() && (#[trigger] qs[
                                entries@[w].1 as int].mappings@[j]).reference_id == entries@[w].2
                                && qs[entries@[w].1 as int].mappings@[j].score == entries@[w].0);
                    }
                }
            }
            // the old sentinel and committed outcomes never degrade to the
            // fallback sentinel
            assert forall|q: int|
                0 <= q < qs.len() && (#[trigger] s0.output_assignments@[q]) is Some && !(
                s0.output_assignments@[q] == Option::Some(Assign::UnassignedByPolicy))
                implies self.output_assignments@[q] != Option::Some(
                Assign::UnassignedByPolicy,
            ) by {
                assert(s1.output_assignments@[q] == s0.output_assignments@[q]);
                if s2.output_assignments@[q] == s1.output_assignments@[q] {
                    assert(s2.output_assignments@[q] is Some);
                    assert(self.output_assignments@[q] == s2.output_assignments@[q]);
                } else {
                    assert(exists|j: int|
                        0 <= j < qs[q].mappings@.len() && s2.output_assignments@[q]
                            == Option::Some(
                            Assign::Target((#[trigger] qs[q].mappings@[j]).reference_id),
                        ));
                    assert(self.output_assignments@[q] == s2.output_assignments@[q]);
                }
            }
            // the leave-open policy starves a read only when every one of
            // its references is already full
            if !prob_fallback {
                assert forall|q: int, j: int|
                    0 <= q < qs.len() && (#[trigger] s0.output_assignments@[q]) is None
                        && self.output_assignments@[q] == Option::Some(
                        Assign::UnassignedByPolicy,
                    ) && 0 <= j < qs[q].mappings@.len() implies !self.has_room(
                    (#[trigger] qs[q].mappings@[j]).reference_id as int,
                ) by {
                    let rid = qs[q].mappings@[j].reference_id as int;
                    assert(1 <= rid < s0.committed@.len());
                    // the read stayed open through the greedy and swap passes
                    assert(s2.output_assignments@[q] is None) by {
                        if s2.output_assignments@[q] is Some {
                            assert(self.output_assignments@[q] == s2.output_assignments@[q]);
                            if s2.output_assignments@[q] == s1.output_assignments@[q] {
                                if s1.output_assignments@[q] != s0.output_assignments@[q] {
                                    assert(false);
                                } else {
                                    assert(false);
                                }
                            } else {
                                assert(false);
                            }
                        }
                    }
                    assert(s1.output_assignments@[q] is None) by {
                        if s1.output_assignments@[q] is Some {
                            assert(s2.output_assignments@[q] != s1.output_assignments@[q]);
                            assert(exists|j2: int|
                                0 <= j2 < qs[q].mappings@.len() && s2.output_assignments@[q]
                                    == Option::Some(
                                    Assign::Target((#[trigger] qs[q].mappings@[j2]).reference_id),
                                ));
                            assert(false);
                        }
                    }
                    if s0.has_room(rid) {
                        let t = (qs[q].mappings@[j].score, q as usize, qs[q].mappings@[
                            j].reference_id);
                        assert(entries@.contains(t));
                        let w = choose|w: int| 0 <= w < entries@.len() && entries@[w] == t;
                        assert(ordered@.contains(entries@[w]));
                        assert(ordered@.contains(t));
                        let k = choose|k: int| 0 <= k < ordered@.len() && ordered@[k] == t;
                        assert(s1.output_assignments@[ordered@[k].1 as int] is Some || !((
                        s1.committed@[ordered@[k].2 as int] as int) * SCALE < (s1.abundance@[
                            ordered@[k].2 as int] as int) * s1.query_size + SCALE));
                        assert(!s1.has_room(rid));
                        lemma_no_room_monotone(s1, s2, rid);
                        lemma_no_room_monotone(s2, *self, rid);
                    } else {
                        lemma_no_room_monotone(s0, s1, rid);
                        lemma_no_room_monotone(s1, s2, rid);
                        lemma_no_room_monotone(s2, *self, rid);
                    }
                }
            }
        }
    }
}

/// A reference without room never regains it while commitments only grow.
proof fn lemma_no_room_monotone(m1: AssignmentMachine, m2: AssignmentMachine, r: int)
    requires
        0 <= r < m1.committed@.len(),
        m1.committed@.len() == m2.committed@.len(),
        m1.committed@[r] <= m2.committed@[r],
        m1.abundance@ == m2.abundance@,
        m1.query_size == m2.query_size,
        !m1.has_room(r),
    ensures
        !m2.has_room(r),
{
    assert((m1.committed@[r] as int) * SCALE <= (m2.committed@[r] as int) * SCALE)
        by (nonlinear_arith)
        requires m1.committed@[r] <= m2.committed@[r];
}

} // verus!

verus! {

/// The rendering of a sentinel outcome.
pub open spec fn not_aligned() -> Seq<u8> {
    seq![78u8, 79u8, 84u8, 32u8, 65u8, 76u8, 73u8, 71u8, 78u8, 69u8, 68u8]
}

/// Runs the whole assignment engine and renders one (query name, reference
/// name or `NOT ALIGNED`) pair per read, in read order: every read appears
/// exactly once in the output.
#[verifier::loop_isolation(false)]
#[verifier::rlimit(60)]
pub fn assign_mappings(
    queries: &Vec<Query>,
    names: &Vec<Vec<u8>>,
    references: &Vec<crate::readers::Reference>,
    strain_abundance: &Vec<u64>,
    query_size: u64,
    score_max_diff: u64,
    prob_fallback: bool,
) -> (r: Vec<(Vec<u8>, Vec<u8>)>)
    requires
        crate::readers::queries_wf(queries@, names@, references@.len() as int),
        strain_abundance@.len() == references@.len(),
        forall|i: int| 0 <= i < strain_abundance@.len() ==> #[trigger] strain_abundance@[i] <= SCALE,
        query_size <= MAX_RECORDS,
        score_max_diff <= SCALE,
    ensures
        r@.len() == queries@.len(),
        forall|q: int| 0 <= q < r@.len() ==> (#[trigger] r@[q]).0@ == names@[q]@,
        forall|q: int|
            0 <= q < r@.len() ==> ((#[trigger] r@[q]).1@ == not_aligned() || exists|rr: int|
                0 <= rr < references@.len() && r@[q].1@ == (#[trigger] references@[rr]).ref_name@),
        forall|q: int|
            0 <= q < r@.len() ==> ((#[trigger] r@[q]).1@ == not_aligned() || exists|j: int|
                0 <= j < queries@[q].mappings@.len() && r@[q].1@ == references@[(
                #[trigger] queries@[q].mappings@[j]).reference_id - 1].ref_name@),
        forall|q: int|
            0 <= q < r@.len() && queries@[q].mappings@.len() == 1 ==> (#[trigger] r@[q]).1@
                == references@[queries@[q].mappings@[0].reference_id - 1].ref_name@,
{
    let mut machine = AssignmentMachine::new(strain_abundance, query_size, queries.len());
    let ghost mnew = machine;
    machine.initial_assignment(queries);
    let ghost m0 = machine;
    machine.secondary_assignment(queries, score_max_diff);
    let ghost m1 = machine;
    machine.assign_based_on_abundance(queries, prob_fallback);
    proof {
        // a committed read is committed to one of its own references
        assert forall|q: int, rr: usize|
            0 <= q < queries@.len() && machine.output_assignments@[q] == Option::Some(
                Assign::Target(rr),
            ) implies exists|j: int|
            0 <= j < queries@[q].mappings@.len() && (#[trigger] queries@[q].mappings@[
                j]).reference_id == rr by {
            if machine.output_assignments@[q] == m1.output_assignments@[q] {
                if m1.output_assignments@[q] == m0.output_assignments@[q] {
                    if queries@[q].mappings@.len() == 1 {
                        assert(queries@[q].mappings@[0].reference_id == rr);
                    } else if queries@[q].mappings@.len() == 0 {
                        assert(false);
                    } else {
                        assert(false);
                    }
                } else {
                    assert(m0.output_assignments@[q] is None);
                    assert(queries@[q].mappings@[crate::readers::first_max_idx(
                        queries@[q].mappings@,
                    )].reference_id == rr);
                    crate::readers::lemma_first_max_idx_bounds(queries@[q].mappings@);
                }
            }
        }
        // a read with a single mapping stays committed to it
        assert forall|q: int|
            0 <= q < queries@.len() && queries@[q].mappings@.len() == 1
            implies machine.output_assignments@[q] == Option::Some(
            Assign::Target(queries@[q].mappings@[0].reference_id),
        ) by {
            assert(m0.output_assignments@[q] == Option::Some(
                Assign::Target(queries@[q].mappings@[0].reference_id),
            ));
            assert(m1.output_assignments@[q] == m0.output_assignments@[q]);
            if machine.output_assignments@[q] != m1.output_assignments@[q] {
                assert(machine.output_assignments@[q] != Option::Some(
                    Assign::UnassignedByPolicy,
                ));
                let j = choose|j: int|
                    0 <= j < queries@[q].mappings@.len() && machine.output_assignments@[q]
                        == Option::Some(
                        Assign::Target((#[trigger] queries@[q].mappings@[j]).reference_id),
                    );
                assert(j == 0);
            }
        }
    }
    let mut out: Vec<(Vec<u8>, Vec<u8>)> = Vec::new();
    let n = queries.len();
    let mut q: usize = 0;
    while q < n
        invariant
            0 <= q <= n,
            n == queries@.len(),
            machine.wf(),
            machine.abundance@.len() == references@.len() + 1,
            machine.output_assignments@.len() == n,
            names@.len() == n,
            forall|k: int|
                0 <= k < n ==> (#[trigger] machine.output_assignments@[k]) is Some,
            forall|k: int, rr: usize|
                0 <= k < n && machine.output_assignments@[k] == Option::Some(Assign::Target(rr))
                    ==> exists|j: int|
                    0 <= j < queries@[k].mappings@.len() && (#[trigger] queries@[k].mappings@[
                        j]).reference_id == rr,
            forall|k: int|
                0 <= k < n && queries@[k].mappings@.len() == 1
                    ==> machine.output_assignments@[k] == Option::Some(
                    Assign::Target(queries@[k].mappings@[0].reference_id),
                ),
            out@.len() == q,
            forall|k: int| 0 <= k < q ==> (#[trigger] out@[k]).0@ == names@[k]@,
            forall|k: int|
                0 <= k < q ==> ((#[trigger] out@[k]).1@ == not_aligned() || exists|rr: int|
                    0 <= rr < references@.len() && out@[k].1@ == (
                    #[trigger] references@[rr]).ref_name@),
            forall|k: int|
                0 <= k < q ==> ((#[trigger] out@[k]).1@ == not_aligned() || exists|j: int|
                    0 <= j < queries@[k].mappings@.len() && out@[k].1@ == references@[(
                    #[trigger] queries@[k].mappings@[j]).reference_id - 1].ref_name@),
            forall|k: int|
                0 <= k < q && queries@[k].mappings@.len() == 1 ==> (#[trigger] out@[k]).1@
                    == references@[queries@[k].mappings@[0].reference_id - 1].ref_name@,
        decreases n - q,
    {
        let qname = crate::readers::copy_bytes(names[q].as_slice());
        let target = match machine.output_assignments[q] {
            Option::Some(a) => a,
            Option::None => Assign::UnassignedByPolicy,
        };
        let rendered: Vec<u8> = match target {
            Assign::Target(rr) => {
                proof {
                    assert(machine.output_assignments@[q as int] == Option::Some(
                        Assign::Target(rr),
                    ));
                    let j = choose|j: int|
                        0 <= j < queries@[q as int].mappings@.len() && (#[trigger] queries@[
                            q as int].mappings@[j]).reference_id == rr;
                    assert(1 <= queries@[q as int].mappings@[j].reference_id
                        <= references@.len());
                }
                if 1 <= rr && rr <= references.len() {
                    proof {
                        assert(0 <= rr - 1 < references@.len());
                    }
                    crate::readers::copy_bytes(references[rr - 1].ref_name.as_slice())
                } else {
                    proof {
                        assert(false);
                    }
                    let v: Vec<u8> = vec![78u8, 79u8, 84u8, 32u8, 65u8, 76u8, 73u8, 71u8, 78u8, 69u8, 68u8];
                    proof {
                        assert(v@ =~= not_aligned());
                    }
                    v
                }
            },
            Assign::UnmappedByAligner => {
                let v: Vec<u8> = vec![78u8, 79u8, 84u8, 32u8, 65u8, 76u8, 73u8, 71u8, 78u8, 69u8, 68u8];
                proof {
                    assert(v@ =~= not_aligned());
                }
                v
            },
            Assign::UnassignedByPolicy => {
                let v: Vec<u8> = vec![78u8, 79u8, 84u8, 32u8, 65u8, 76u8, 73u8, 71u8, 78u8, 69u8, 68u8];
                proof {
                    assert(v@ =~= not_aligned());
                }
                v
            },
        };
        out.push((qname, rendered));
        q = q + 1;
    }
    out
}

} // verus!

verus! {

/// Tab byte.
pub open spec fn tab() -> u8 {
    9u8
}

/// Newline byte.
pub open spec fn nl() -> u8 {
    10u8
}

/// A renderable name: free of the tab and newline delimiters.
pub open spec fn wf_name(s: Seq<u8>) -> bool {
    forall|k: int| 0 <= k < s.len() ==> #[trigger] s[k] != 9u8 && s[k] != 10u8
}

/// One assignment line: query name, tab, reference name, tab.
pub open spec fn enc_pair(a: Seq<u8>, b: Seq<u8>) -> Seq<u8> {
    a + seq![9u8] + b + seq![9u8]
}

/// The whole assignment file: one line per pair, each ended by a newline.
pub open spec fn enc_all(ps: Seq<(Seq<u8>, Seq<u8>)>) -> Seq<u8>
    decreases ps.len(),
{
    if ps.len() == 0 {
        Seq::empty()
    } else {
        enc_pair(ps.first().0, ps.first().1) + seq![10u8] + enc_all(ps.drop_first())
    }
}

/// Reads assignment pairs back out of split lines: empty lines carry
/// nothing; a line's first two tab-fields are the pair.
pub open spec fn parse_lines(lines: Seq<Seq<u8>>) -> Seq<(Seq<u8>, Seq<u8>)>
    decreases lines.len(),
{
    if lines.len() == 0 {
        Seq::empty()
    } else {
        (if lines.first().len() == 0 {
            Seq::empty()
        } else {
            let fs = crate::util::split_bytes(lines.first(), 9u8);
            if fs.len() >= 2 {
                seq![(fs[0], fs[1])]
            } else {
                seq![(fs[0], Seq::<u8>::empty())]
            }
        }) + parse_lines(lines.drop_first())
    }
}

/// Parsing distributes over concatenation of line lists.
proof fn lemma_parse_lines_append(x: Seq<Seq<u8>>, y: Seq<Seq<u8>>)
    ensures
        parse_lines(x + y) == parse_lines(x) + parse_lines(y),
    decreases x.len(),
{
    if x.len() == 0 {
        assert(x + y =~= y);
        assert(parse_lines(x) + parse_lines(y) =~= parse_lines(y));
    } else {
        assert((x + y).first() == x.first());
        assert((x + y).drop_first() =~= x.drop_first() + y);
        lemma_parse_lines_append(x.drop_first(), y);
        assert(parse_lines(x + y) =~= parse_lines(x) + parse_lines(y));
    }
}

/// Serialising assignment pairs and splitting the bytes back into lines
/// returns exactly the pairs: the round-trip law, for names free of the
/// delimiters.
pub proof fn lemma_assignment_round_trip(ps: Seq<(Seq<u8>, Seq<u8>)>)
    requires
        forall|k: int| 0 <= k < ps.len() ==> wf_name((#[trigger] ps[k]).0) && wf_name(ps[k].1),
    ensures
        parse_lines(crate::util::split_bytes(enc_all(ps), 10u8)) == ps,
    decreases ps.len(),
{
    if ps.len() == 0 {
        assert(crate::util::split_bytes(enc_all(ps), 10u8) =~= seq![Seq::<u8>::empty()]);
        assert(parse_lines(Seq::<Seq<u8>>::empty()) =~= Seq::<(Seq<u8>, Seq<u8>)>::empty());
        assert(seq![Seq::<u8>::empty()].drop_first() =~= Seq::<Seq<u8>>::empty());
        assert(parse_lines(seq![Seq::<u8>::empty()]) =~= Seq::<(Seq<u8>, Seq<u8>)>::empty());
    } else {
        let a = ps.first().0;
        let b = ps.first().1;
        let line = enc_pair(a, b);
        let rest = enc_all(ps.drop_first());
        assert(enc_all(ps) =~= line + seq![10u8] + rest);
        assert forall|k: int| 0 <= k < line.len() implies line[k] != 10u8 by {
            if k < a.len() {
                assert(line[k] == a[k]);
            } else if k == a.len() {
                assert(line[k] == 9u8);
            } else if k < a.len() + 1 + b.len() {
                assert(line[k] == b[k - a.len() - 1]);
            } else {
                assert(line[k] == 9u8);
            }
        }
        crate::util::lemma_split_prepend(line, rest, 10u8);
        // the line's fields are the two names and a trailing empty field
        assert(line =~= a + seq![9u8] + (b + seq![9u8] + Seq::<u8>::empty()));
        crate::util::lemma_split_prepend(a, b + seq![9u8] + Seq::<u8>::empty(), 9u8);
        assert(b + seq![9u8] + Seq::<u8>::empty() =~= b + seq![9u8] + Seq::<u8>::empty());
        crate::util::lemma_split_prepend(b, Seq::<u8>::empty(), 9u8);
        crate::util::lemma_split_whole(Seq::<u8>::empty(), 9u8);
        assert(crate::util::split_bytes(line, 9u8) =~= seq![a, b, Seq::<u8>::empty()]);
        lemma_assignment_round_trip(ps.drop_first());
        let lines = crate::util::split_bytes(enc_all(ps), 10u8);
        assert(lines =~= seq![line] + crate::util::split_bytes(rest, 10u8));
        assert(lines.first() == line);
        assert(line.len() > 0);
        assert(lines.drop_first() =~= crate::util::split_bytes(rest, 10u8));
        assert(parse_lines(lines) =~= seq![(a, b)] + parse_lines(
            crate::util::split_bytes(rest, 10u8),
        ));
        assert(seq![(a, b)] + ps.drop_first() =~= ps);
    }
}

/// Writes the assignment table as bytes: `name<TAB>reference<TAB><NL>` per
/// read.
#[verifier::loop_isolation(false)]
pub fn serialize_assignments(pairs: &Vec<(Vec<u8>, Vec<u8>)>) -> (r: Vec<u8>)
    ensures
        r@ == enc_all(pair_views(pairs@)),
{
    let mut out: Vec<u8> = Vec::new();
    let n = pairs.len();
    let mut i: usize = 0;
    while i < n
        invariant
            0 <= i <= n,
            n == pairs@.len(),
            out@ == enc_all(pair_views(pairs@).take(i as int)),
        decreases n - i,
    {
        let mut j: usize = 0;
        let qn = &pairs[i].0;
        while j < qn.len()
            invariant
                0 <= j <= qn@.len(),
                qn == pairs@[i as int].0,
                0 <= i < pairs@.len(),
                out@ == enc_all(pair_views(pairs@).take(i as int)) + qn@.take(j as int),
            decreases qn.len() - j,
        {
            out.push(qn[j]);
            proof {
                assert(out@ =~= enc_all(pair_views(pairs@).take(i as int)) + qn@.take(j + 1));
            }
            j = j + 1;
        }
        out.push(9);
        let rn = &pairs[i].1;
        let mut j2: usize = 0;
        while j2 < rn.len()
            invariant
                0 <= j2 <= rn@.len(),
                rn == pairs@[i as int].1,
                qn == pairs@[i as int].0,
                0 <= i < pairs@.len(),
                out@ == enc_all(pair_views(pairs@).take(i as int)) + qn@ + seq![9u8] + rn@.take(
                    j2 as int,
                ),
            decreases rn.len() - j2,
        {
            out.push(rn[j2]);
            proof {
                assert(out@ =~= enc_all(pair_views(pairs@).take(i as int)) + qn@ + seq![9u8]
                    + rn@.take(j2 + 1));
            }
            j2 = j2 + 1;
        }
        out.push(9);
        out.push(10);
        proof {
            assert(qn@.take(qn@.len() as int) =~= qn@);
            assert(rn@.take(rn@.len() as int) =~= rn@);
            lemma_enc_all_append(pair_views(pairs@).take(i as int), (qn@, rn@));
            assert(pair_views(pairs@).take(i + 1) =~= pair_views(pairs@).take(i as int).push(
                (qn@, rn@),
            ));
            assert(out@ =~= enc_all(pair_views(pairs@).take(i as int)) + enc_pair(qn@, rn@)
                + seq![10u8]);
        }
        i = i + 1;
    }
    proof {
        assert(pair_views(pairs@).take(n as int) =~= pair_views(pairs@));
    }
    out
}

/// The views of a pair table.
pub open spec fn pair_views(ps: Seq<(Vec<u8>, Vec<u8>)>) -> Seq<(Seq<u8>, Seq<u8>)> {
    ps.map_values(|p: (Vec<u8>, Vec<u8>)| (p.0@, p.1@))
}

/// Appending one pair appends its encoded line.
proof fn lemma_enc_all_append(ps: Seq<(Seq<u8>, Seq<u8>)>, p: (Seq<u8>, Seq<u8>))
    ensures
        enc_all(ps.push(p)) == enc_all(ps) + enc_pair(p.0, p.1) + seq![10u8],
    decreases ps.len(),
{
    if ps.len() == 0 {
        assert(ps.push(p).first() == p);
        assert(ps.push(p).drop_first() =~= Seq::<(Seq<u8>, Seq<u8>)>::empty());
        assert(enc_all(Seq::<(Seq<u8>, Seq<u8>)>::empty()) =~= Seq::<u8>::empty());
        assert(enc_all(ps.push(p)) =~= enc_all(ps) + enc_pair(p.0, p.1) + seq![10u8]);
    } else {
        assert(ps.push(p).first() == ps.first());
        assert(ps.push(p).drop_first() =~= ps.drop_first().push(p));
        lemma_enc_all_append(ps.drop_first(), p);
        assert(enc_all(ps.push(p)) =~= enc_all(ps) + enc_pair(p.0, p.1) + seq![10u8]);
    }
}

/// Reads an assignment table back from bytes; exactly the pairs on the
/// non-empty lines, first two tab-fields each.
#[verifier::loop_isolation(false)]
pub fn parse_assignments(data: &[u8]) -> (r: Vec<(Vec<u8>, Vec<u8>)>)
    ensures
        pair_views(r@) == parse_lines(crate::util::split_bytes(data@, 10u8)),
{
    let lines = crate::util::split_on(data, 10);
    let ghost lviews = crate::util::split_bytes(data@, 10u8);
    let mut out: Vec<(Vec<u8>, Vec<u8>)> = Vec::new();
    let n = lines.len();
    proof {
        assert(lviews.take(0int) =~= Seq::<Seq<u8>>::empty());
        assert(pair_views(out@) =~= parse_lines(lviews.take(0int)));
    }
    let mut i: usize = 0;
    while i < n
        invariant
            0 <= i <= n,
            n == lines@.len(),
            crate::util::views(lines@) == lviews,
            pair_views(out@) == parse_lines(lviews.take(i as int)),
        decreases n - i,
    {
        proof {
            assert(lviews.take(i + 1) =~= lviews.take(i as int) + seq![lviews[i as int]]);
            lemma_parse_lines_append(lviews.take(i as int), seq![lviews[i as int]]);
            assert(seq![lviews[i as int]].first() == lviews[i as int]);
            assert(seq![lviews[i as int]].drop_first() =~= Seq::<Seq<u8>>::empty());
            assert(crate::util::views(lines@)[i as int] == lines@[i as int]@);
        }
        if lines[i].len() > 0 {
            let fields = crate::util::split_on(lines[i].as_slice(), 9);
            proof {
                assert(crate::util::views(fields@) == crate::util::split_bytes(
                    lines@[i as int]@,
                    9u8,
                ));
                assert(crate::util::views(fields@)[0] == fields@[0]@);
            }
            if fields.len() >= 2 {
                proof {
                    assert(crate::util::views(fields@)[1] == fields@[1]@);
                }
                let f0 = crate::readers::copy_bytes(fields[0].as_slice());
                let f1 = crate::readers::copy_bytes(fields[1].as_slice());
                out.push((f0, f1));
                proof {
                    assert(pair_views(out@) =~= parse_lines(lviews.take(i + 1)));
                }
            } else {
                let f0 = crate::readers::copy_bytes(fields[0].as_slice());
                out.push((f0, Vec::new()));
                proof {
                    assert(pair_views(out@) =~= parse_lines(lviews.take(i + 1)));
                }
            }
        } else {
            proof {
                assert(pair_views(out@) =~= parse_lines(lviews.take(i + 1)));
            }
        }
        i = i + 1;
    }
    proof {
        assert(lviews.take(n as int) =~= lviews);
    }
    out
}

} // verus!
