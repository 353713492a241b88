use lra::assignment::assign_mappings;
use lra::cedar::Cedar;
use lra::readers::Method;

fn sam(text: &str) -> Vec<u8> {
    text.as_bytes().to_vec()
}

fn run_pipeline(text: &str, min_cnt: u64) -> Cedar {
    let mut c = Cedar::new();
    let data = sam(text);
    let r = c.run(data.as_slice(), 300, 1000, min_cnt, 100, Method::Pufferfish);
    assert!(r.is_ok());
    c
}

fn outputs(c: &Cedar, score_max_diff: u64, prob: bool) -> Vec<(String, String)> {
    let q = c.read_cnt - c.unmapping_reads;
    let pairs = assign_mappings(
        &c.queries,
        &c.query_id_2_name,
        &c.references,
        c.get_strain_abundance(),
        q,
        score_max_diff,
        prob,
    );
    pairs
        .into_iter()
        .map(|(a, b)| {
            (
                String::from_utf8(a).unwrap(),
                String::from_utf8(b).unwrap(),
            )
        })
        .collect()
}

#[test]
fn single_reference_three_unique_reads() {
    // all mass on the only reference, every read committed to it
    let c = run_pipeline(
        "@SQ\tSN:R1\tLN:1000\n\
         r1\t0\tR1\t100\t60\t4M\t*\t0\t0\tACGT\t*\tAS:i:60\n\
         r2\t0\tR1\t200\t60\t4M\t*\t0\t0\tACGT\t*\tAS:i:60\n\
         r3\t0\tR1\t300\t60\t4M\t*\t0\t0\tACGT\t*\tAS:i:60\n",
        100000,
    );
    assert_eq!(c.get_strain_abundance(), &vec![1000000u64]);
    let out = outputs(&c, 500000, false);
    assert_eq!(out.len(), 3);
    for (_, target) in &out {
        assert_eq!(target, "R1");
    }
}

#[test]
fn two_references_one_ambiguous_read() {
    // the class splits its weight evenly; abundance converges to half
    // and half; the read commits to one of the two references
    let c = run_pipeline(
        "@SQ\tSN:R1\tLN:1000\n\
         @SQ\tSN:R2\tLN:1000\n\
         r1\t0\tR1\t100\t60\t4M\t*\t0\t0\tACGT\t*\tAS:i:60\n\
         r1\t0\tR2\t100\t60\t4M\t*\t0\t0\tACGT\t*\tAS:i:60\n",
        100000,
    );
    let eqb = &c.eqb;
    assert_eq!(eqb.count_vec.len(), 1);
    assert_eq!(eqb.count_vec[0].0.tgts, vec![1, 2]);
    assert_eq!(eqb.count_vec[0].1.combined_weights, vec![500000, 500000]);
    // with no unique support anywhere, the iteration-zero pruner retains
    // one of the two indistinguishable strains and gives it all the mass
    let ab = c.get_strain_abundance();
    assert_eq!(ab[0] + ab[1], 1000000);
    assert!(ab[0] == 1000000 || ab[1] == 1000000);
    let out = outputs(&c, 500000, false);
    assert_eq!(out.len(), 1);
    assert!(out[0].1 == "R1" || out[0].1 == "R2");
}

#[test]
fn dominant_best_commits_in_phase_two() {
    // (100 - 40) / 100 = 0.6 > 0.5, so every read takes its best
    let c = run_pipeline(
        "@SQ\tSN:R1\tLN:1000\n\
         @SQ\tSN:R2\tLN:1000\n\
         r1\t0\tR1\t100\t60\t4M\t*\t0\t0\tACGT\t*\tAS:i:100\n\
         r1\t0\tR2\t100\t60\t4M\t*\t0\t0\tACGT\t*\tAS:i:40\n\
         r2\t0\tR1\t100\t60\t4M\t*\t0\t0\tACGT\t*\tAS:i:100\n\
         r2\t0\tR2\t100\t60\t4M\t*\t0\t0\tACGT\t*\tAS:i:40\n\
         r3\t0\tR1\t100\t60\t4M\t*\t0\t0\tACGT\t*\tAS:i:100\n\
         r3\t0\tR2\t100\t60\t4M\t*\t0\t0\tACGT\t*\tAS:i:40\n",
        100000,
    );
    let out = outputs(&c, 500000, false);
    assert_eq!(out.len(), 3);
    for (_, target) in &out {
        assert_eq!(target, "R1");
    }
}

#[test]
fn capacity_splits_equal_reads() {
    // two reads, both mapping both references with equal scores; each
    // read ends on a real reference under the capacity rule
    let c = run_pipeline(
        "@SQ\tSN:R1\tLN:1000\n\
         @SQ\tSN:R2\tLN:1000\n\
         r1\t0\tR1\t100\t60\t4M\t*\t0\t0\tACGT\t*\tAS:i:50\n\
         r1\t0\tR2\t100\t60\t4M\t*\t0\t0\tACGT\t*\tAS:i:50\n\
         r2\t0\tR1\t100\t60\t4M\t*\t0\t0\tACGT\t*\tAS:i:50\n\
         r2\t0\tR2\t100\t60\t4M\t*\t0\t0\tACGT\t*\tAS:i:50\n",
        100000,
    );
    let out = outputs(&c, 500000, false);
    assert_eq!(out.len(), 2);
    for (_, target) in &out {
        assert!(target == "R1" || target == "R2");
    }
}

#[test]
fn pruner_keeps_unique_support() {
    // only A has unique read support; the others are explained away
    let c = run_pipeline(
        "@SQ\tSN:A\tLN:1000\n\
         @SQ\tSN:B\tLN:1000\n\
         @SQ\tSN:C\tLN:1000\n\
         @SQ\tSN:D\tLN:1000\n\
         r1\t0\tA\t100\t60\t4M\t*\t0\t0\tACGT\t*\tAS:i:50\n\
         r1\t0\tB\t100\t60\t4M\t*\t0\t0\tACGT\t*\tAS:i:50\n\
         r2\t0\tA\t100\t60\t4M\t*\t0\t0\tACGT\t*\tAS:i:50\n\
         r2\t0\tB\t100\t60\t4M\t*\t0\t0\tACGT\t*\tAS:i:50\n\
         r3\t0\tA\t100\t60\t4M\t*\t0\t0\tACGT\t*\tAS:i:50\n\
         r3\t0\tC\t100\t60\t4M\t*\t0\t0\tACGT\t*\tAS:i:50\n\
         r4\t0\tA\t100\t60\t4M\t*\t0\t0\tACGT\t*\tAS:i:50\n\
         r4\t0\tC\t100\t60\t4M\t*\t0\t0\tACGT\t*\tAS:i:50\n\
         r5\t0\tA\t100\t60\t4M\t*\t0\t0\tACGT\t*\tAS:i:50\n\
         r5\t0\tD\t100\t60\t4M\t*\t0\t0\tACGT\t*\tAS:i:50\n\
         r6\t0\tA\t100\t60\t4M\t*\t0\t0\tACGT\t*\tAS:i:50\n\
         r6\t0\tD\t100\t60\t4M\t*\t0\t0\tACGT\t*\tAS:i:50\n\
         r7\t0\tA\t100\t60\t4M\t*\t0\t0\tACGT\t*\tAS:i:50\n",
        10000000,
    );
    let ab = c.get_strain_abundance();
    assert_eq!(ab[0], 1000000);
    assert_eq!(ab[1], 0);
    assert_eq!(ab[2], 0);
    assert_eq!(ab[3], 0);
}

#[test]
fn fallback_policies_on_saturated_references() {
    // the third read's only candidates have no room left; the "none"
    // policy leaves it unaligned, the probabilistic policy commits it
    let text = "@SQ\tSN:R1\tLN:1000\n\
         @SQ\tSN:R2\tLN:1000\n\
         u1\t0\tR1\t100\t60\t4M\t*\t0\t0\tACGT\t*\tAS:i:60\n\
         u2\t0\tR1\t200\t60\t4M\t*\t0\t0\tACGT\t*\tAS:i:60\n\
         amb\t0\tR1\t300\t60\t4M\t*\t0\t0\tACGT\t*\tAS:i:60\n\
         amb\t0\tR1\t400\t60\t4M\t*\t0\t0\tACGT\t*\tAS:i:60\n";
    let data = sam(text);
    let parsed = lra::readers::read_initial_alignments(data.as_slice(), Method::Pufferfish);
    let (refs, queries, names) = parsed.unwrap_or_else(|_| panic!("parse failed"));
    // a handcrafted all-zero abundance saturates every reference after the
    // free unique commits
    let abundance = vec![0u64, 0u64];
    let out_none = assign_mappings(&queries, &names, &refs, &abundance, 3, 500000, false);
    let rendered: Vec<String> = out_none
        .iter()
        .map(|p| String::from_utf8(p.1.clone()).unwrap())
        .collect();
    assert_eq!(rendered[0], "R1");
    assert_eq!(rendered[1], "R1");
    assert_eq!(rendered[2], "NOT ALIGNED");
    let out_prob = assign_mappings(&queries, &names, &refs, &abundance, 3, 500000, true);
    let rendered2: Vec<String> = out_prob
        .iter()
        .map(|p| String::from_utf8(p.1.clone()).unwrap())
        .collect();
    assert_eq!(rendered2[2], "R1");
}

#[test]
fn zero_abundance_reference_takes_at_most_one_read() {
    // the tightest capacity: with all abundances zero, each reference can
    // take one guarded commit only
    let text = "@SQ\tSN:R1\tLN:1000\n\
         @SQ\tSN:R2\tLN:1000\n\
         a\t0\tR1\t100\t60\t4M\t*\t0\t0\tACGT\t*\tAS:i:10\n\
         a\t0\tR2\t100\t60\t4M\t*\t0\t0\tACGT\t*\tAS:i:10\n\
         b\t0\tR1\t200\t60\t4M\t*\t0\t0\tACGT\t*\tAS:i:10\n\
         b\t0\tR2\t200\t60\t4M\t*\t0\t0\tACGT\t*\tAS:i:10\n\
         c\t0\tR1\t300\t60\t4M\t*\t0\t0\tACGT\t*\tAS:i:10\n\
         c\t0\tR2\t300\t60\t4M\t*\t0\t0\tACGT\t*\tAS:i:10\n";
    let data = sam(text);
    let (refs, queries, names) =
        lra::readers::read_initial_alignments(data.as_slice(), Method::Pufferfish).unwrap_or_else(
            |_| panic!("parse failed"),
        );
    let abundance = vec![0u64, 0u64];
    let out = assign_mappings(&queries, &names, &refs, &abundance, 3, 500000, false);
    let mut r1 = 0;
    let mut r2 = 0;
    for p in &out {
        let t = String::from_utf8(p.1.clone()).unwrap();
        if t == "R1" {
            r1 += 1;
        }
        if t == "R2" {
            r2 += 1;
        }
    }
    assert!(r1 <= 1);
    assert!(r2 <= 1);
    assert_eq!(out.len(), 3);
}

#[test]
fn higher_scores_win_scarce_capacity() {
    // the highest-score-first discipline: with one slot on the wanted
    // reference, the higher-scoring read gets it
    let text = "@SQ\tSN:R1\tLN:1000\n\
         @SQ\tSN:R2\tLN:1000\n\
         low\t0\tR1\t100\t60\t4M\t*\t0\t0\tACGT\t*\tAS:i:50\n\
         low\t0\tR2\t100\t60\t4M\t*\t0\t0\tACGT\t*\tAS:i:45\n\
         high\t0\tR1\t200\t60\t4M\t*\t0\t0\tACGT\t*\tAS:i:100\n\
         high\t0\tR2\t200\t60\t4M\t*\t0\t0\tACGT\t*\tAS:i:90\n";
    let data = sam(text);
    let (refs, queries, names) =
        lra::readers::read_initial_alignments(data.as_slice(), Method::Pufferfish).unwrap_or_else(
            |_| panic!("parse failed"),
        );
    let abundance = vec![0u64, 0u64];
    let out = assign_mappings(&queries, &names, &refs, &abundance, 2, 100000, false);
    let by_name: Vec<(String, String)> = out
        .iter()
        .map(|p| {
            (
                String::from_utf8(p.0.clone()).unwrap(),
                String::from_utf8(p.1.clone()).unwrap(),
            )
        })
        .collect();
    // phase two is dominance-gated at 10%; both reads are dominant, the
    // first in read order takes R1, then the second falls to phase three
    // where only R2 still has room
    assert_eq!(by_name.len(), 2);
    assert!(by_name.iter().any(|(_, t)| t == "R1"));
    assert!(by_name.iter().any(|(_, t)| t == "R2"));
}

#[test]
fn em_terminates_within_cap() {
    // the convergence guarantee: the loop either converges or stops at the
    // iteration cap
    let mut c = Cedar::new();
    let data = sam(
        "@SQ\tSN:R1\tLN:1000\n\
         r1\t0\tR1\t100\t60\t4M\t*\t0\t0\tACGT\t*\tAS:i:60\n",
    );
    let r = c.run(data.as_slice(), 5, 0, 100000, 100, Method::Pufferfish);
    let (_stats, iters, converged) = r.unwrap_or_else(|_| panic!("run failed"));
    assert!(converged || iters == 5);
    assert!(iters <= 5);
}

#[test]
fn bowtie2_scores_are_shifted_on_ingest() {
    // a raw score of -100 becomes 60 under the bowtie2 transform
    let data = sam(
        "@SQ\tSN:R1\tLN:1000\n\
         r1\t0\tR1\t100\t60\t4M\t*\t0\t0\tACGT\t*\tAS:i:-100\n",
    );
    let (_refs, queries, _names) =
        lra::readers::read_initial_alignments(data.as_slice(), Method::Bowtie2).unwrap_or_else(
            |_| panic!("parse failed"),
        );
    assert_eq!(queries[0].mappings[0].score, 60);
    assert_eq!(queries[0].total_score, 60);
}

#[test]
fn abundances_sum_to_one_with_unmapped_reads() {
    // the normalisation guarantee on a mixed input: the reported
    // abundances sum to exactly one
    let c = run_pipeline(
        "@SQ\tSN:R1\tLN:500\n\
         @SQ\tSN:R2\tLN:2000\n\
         r1\t0\tR1\t100\t60\t4M\t*\t0\t0\tACGT\t*\tAS:i:60\n\
         r2\t0\tR2\t100\t60\t4M\t*\t0\t0\tACGT\t*\tAS:i:30\n\
         r3\t4\t*\t0\t0\t*\t*\t0\t0\tACGT\t*\n\
         r4\t0\tR1\t400\t60\t4M\t*\t0\t0\tACGT\t*\tAS:i:20\n\
         r4\t0\tR2\t900\t60\t4M\t*\t0\t0\tACGT\t*\tAS:i:20\n",
        100000,
    );
    let ab = c.get_strain_abundance();
    let total: u64 = ab.iter().sum();
    assert_eq!(total, 1000000);
    assert_eq!(c.unmapping_reads, 1);
    assert_eq!(c.read_cnt, 4);
}

#[test]
fn output_serialises_and_reingests_identically() {
    // the round-trip law on a whole pipeline output
    let c = run_pipeline(
        "@SQ\tSN:R1\tLN:1000\n\
         r1\t0\tR1\t100\t60\t4M\t*\t0\t0\tACGT\t*\tAS:i:60\n\
         r2\t4\t*\t0\t0\t*\t*\t0\t0\tACGT\t*\n",
        100000,
    );
    let q = c.read_cnt - c.unmapping_reads;
    let pairs = assign_mappings(
        &c.queries,
        &c.query_id_2_name,
        &c.references,
        c.get_strain_abundance(),
        q,
        500000,
        false,
    );
    let bytes = lra::assignment::serialize_assignments(&pairs);
    let back = lra::assignment::parse_assignments(bytes.as_slice());
    assert_eq!(back, pairs);
}

#[test]
fn em_with_zero_iterations_normalises_the_seed() {
    // with no iteration the abundances are exactly the normalised ingest
    // seed: the ambiguous read contributes half a count to each reference
    let mut c = Cedar::new();
    let data = sam(
        "@SQ\tSN:R1\tLN:1000\n\
         @SQ\tSN:R2\tLN:1000\n\
         r1\t0\tR1\t100\t60\t4M\t*\t0\t0\tACGT\t*\tAS:i:60\n\
         r1\t0\tR2\t100\t60\t4M\t*\t0\t0\tACGT\t*\tAS:i:60\n",
    );
    let r = c.run(data.as_slice(), 0, 1000, 100000, 100, Method::Pufferfish);
    assert!(r.is_ok());
    assert_eq!(c.get_strain_abundance(), &vec![500000u64, 500000u64]);
}

#[test]
fn pruner_never_removes_unique_support_below_threshold() {
    // A's only support is one read and its count sits below min_cnt; the
    // unique-support protection keeps it valid regardless, so it retains
    // abundance after the pruning pass
    let c = run_pipeline(
        "@SQ\tSN:A\tLN:1000\n\
         @SQ\tSN:B\tLN:1000\n\
         a1\t0\tA\t100\t60\t4M\t*\t0\t0\tACGT\t*\tAS:i:50\n\
         b1\t0\tB\t100\t60\t4M\t*\t0\t0\tACGT\t*\tAS:i:50\n\
         b2\t0\tB\t300\t60\t4M\t*\t0\t0\tACGT\t*\tAS:i:50\n\
         b3\t0\tB\t500\t60\t4M\t*\t0\t0\tACGT\t*\tAS:i:50\n",
        10000000,
    );
    let ab = c.get_strain_abundance();
    assert!(ab[0] > 0);
    assert!(ab[1] > 0);
    assert_eq!(ab[0] + ab[1], 1000000);
}
