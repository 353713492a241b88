use lra::assignment::{parse_assignments, serialize_assignments};
use lra::equivalence_class_builder::{calculate_hash, EquivalenceClassBuilder, TargetGroup};
use lra::get_taxonomy::tax_main;
use lra::sampling::choose_weighted;
use lra::set_covers::greedy_set_cover;
use lra::taxa::{Rank, TaxaNode};
use lra::util::{sort_vec, split_on, u64_to_dec};

#[test]
fn class_weights_normalise_to_one() {
    // after finish, every class's combined weights sum to exactly one
    // (a million millionths)
    let mut eqb = EquivalenceClassBuilder::new();
    eqb.add_group(TargetGroup::new_with_tgt(vec![1, 2]), vec![3, 1]);
    eqb.add_group(TargetGroup::new_with_tgt(vec![1, 2]), vec![1, 1]);
    eqb.add_group(TargetGroup::new_with_tgt(vec![2, 3]), vec![5, 5]);
    let total = eqb.finish();
    assert_eq!(total, 3);
    assert_eq!(eqb.count_vec.len(), 2);
    assert_eq!(eqb.count_vec[0].1.count, 2);
    assert_eq!(eqb.count_vec[0].1.combined_weights, vec![666666, 333334]);
    assert_eq!(eqb.count_vec[1].1.combined_weights, vec![500000, 500000]);
    for (_, v) in eqb.count_vec.iter() {
        let s: u64 = v.combined_weights.iter().sum();
        assert_eq!(s, 1000000);
    }
}

#[test]
fn hash_is_content_based() {
    let a = calculate_hash(&vec![1, 2, 3]);
    let b = calculate_hash(&vec![1, 2, 3]);
    let c = calculate_hash(&vec![3, 2, 1]);
    assert_eq!(a, b);
    assert_ne!(a, c);
}

#[test]
fn sort_vec_orders_by_reference_id() {
    let sorted = sort_vec(&vec![(3, 30), (1, 10), (2, 20)]);
    assert_eq!(sorted, vec![(1, 10), (2, 20), (3, 30)]);
}

#[test]
fn split_preserves_fields() {
    let fields = split_on(b"a\tbb\t\tc", 9);
    assert_eq!(
        fields,
        vec![b"a".to_vec(), b"bb".to_vec(), b"".to_vec(), b"c".to_vec()]
    );
    let single = split_on(b"", 9);
    assert_eq!(single, vec![b"".to_vec()]);
}

#[test]
fn decimal_rendering_is_exact() {
    assert_eq!(u64_to_dec(0), b"0".to_vec());
    assert_eq!(u64_to_dec(7), b"7".to_vec());
    assert_eq!(u64_to_dec(120034), b"120034".to_vec());
}

#[test]
fn set_cover_covers_every_element() {
    let sets = vec![vec![1, 2], vec![2, 3], vec![3]];
    let weights = vec![10, 10, 10];
    let cover = greedy_set_cover(&sets, &weights, 3);
    for element in 1u64..=3 {
        assert!(cover
            .iter()
            .any(|&c| sets[c].contains(&element)));
    }
    // retained sets are distinct
    for (i, a) in cover.iter().enumerate() {
        for b in cover.iter().skip(i + 1) {
            assert_ne!(a, b);
        }
    }
}

#[test]
fn weighted_choice_lands_on_positive_weight() {
    // the sampler can only return an index whose weight is positive
    let idx = choose_weighted(&vec![0, 5, 0]);
    assert_eq!(idx, 1);
    for _ in 0..20 {
        let k = choose_weighted(&vec![0, 3, 0, 9]);
        assert!(k == 1 || k == 3);
    }
}

#[test]
fn assignments_round_trip_through_bytes() {
    // serialising and re-ingesting the assignment table is the identity
    let pairs = vec![
        (b"r1".to_vec(), b"refA".to_vec()),
        (b"r2".to_vec(), b"NOT ALIGNED".to_vec()),
        (b"r3".to_vec(), b"refB".to_vec()),
    ];
    let bytes = serialize_assignments(&pairs);
    assert_eq!(
        bytes,
        b"r1\trefA\t\nr2\tNOT ALIGNED\t\nr3\trefB\t\n".to_vec()
    );
    let back = parse_assignments(bytes.as_slice());
    assert_eq!(back, pairs);
}

#[test]
fn rank_names_convert_both_ways() {
    assert_eq!(TaxaNode::str_to_rank(b"genus"), Some(Rank::GENUS));
    assert_eq!(TaxaNode::str_to_rank(b"no rank"), Some(Rank::STRAIN));
    assert_eq!(TaxaNode::str_to_rank(b"species subgroup"), Some(Rank::SPECIESSUBGROUP));
    assert_eq!(TaxaNode::str_to_rank(b"nonsense"), None);
    assert_eq!(TaxaNode::rank_to_string(&Rank::SUPERKINGDOM), b"superkingdom".to_vec());
    assert_eq!(TaxaNode::rank_to_string(&Rank::UNCLASSIFIED), b"unclassified".to_vec());
}

#[test]
fn taxa_node_roots_itself_when_parentless() {
    let n = TaxaNode::new(5, 5, Rank::GENUS);
    assert!(n.is_root());
    assert_eq!(n.get_parent_id(), usize::MAX);
    let m = TaxaNode::new(5, 7, Rank::GENUS);
    assert!(!m.is_root());
    assert_eq!(m.get_parent_id(), 7);
}

#[test]
fn lineage_table_carries_ancestor_names() {
    let assignments = vec![(b"r1".to_vec(), b"R1".to_vec())];
    let at_lines = vec![b"R1\t7".to_vec()];
    let nodes_lines = vec![
        b"7 | 5 | species |".to_vec(),
        b"5 | 131567 | genus |".to_vec(),
    ];
    let names_lines = vec![
        b"7 | SpeciesX |  | scientific name |".to_vec(),
        b"5 | GenusY |  | scientific name |".to_vec(),
    ];
    let table = tax_main(&assignments, &at_lines, &nodes_lines, &names_lines);
    let text = String::from_utf8(table).unwrap();
    assert!(text.starts_with(
        "Query\tReference\tSpecies\tGenus\tFamily\tOrder\tClass\tPhylum\tSuperkingdom\n\n"
    ));
    assert!(text.contains("r1\tR1"));
    // the first lineage step is the id's own and fills the leading column
    // slot, so only the ancestors' names appear in the rank columns
    assert!(text.contains("GenusY"));
    assert!(text.contains("NA"));
}

#[test]
fn abundance_table_renders_fractions() {
    let mut c = lra::cedar::Cedar::new();
    let data = b"@SQ\tSN:R1\tLN:1000\nr1\t0\tR1\t100\t60\t4M\t*\t0\t0\tACGT\t*\tAS:i:60\n";
    c.run(data, 300, 1000, 100000, 100, lra::readers::Method::Pufferfish)
        .unwrap_or_else(|_| panic!("run failed"));
    let table = c.serialize_simple();
    assert_eq!(String::from_utf8(table).unwrap(), "1\tR1\t1.000000\n");
}

#[test]
fn interval_cleaning_merges_overlaps() {
    let mut n = TaxaNode::new_with_id(1);
    n.l_intervals = vec![
        lra::taxa::Interval::new(10, 20),
        lra::taxa::Interval::new(0, 5),
        lra::taxa::Interval::new(15, 30),
    ];
    n.clean_intervals(lra::taxa::ReadEnd::LEFT);
    assert!(n.is_cleaned);
    assert_eq!(n.l_intervals.len(), 2);
    assert_eq!((n.l_intervals[0].begin, n.l_intervals[0].end), (0, 5));
    assert_eq!((n.l_intervals[1].begin, n.l_intervals[1].end), (10, 30));
    // the score folded in the coverage of the lists before merging
    assert_eq!(n.score, 10 + 5 + 15);
}

#[test]
fn children_are_counted_once() {
    let mut parent = TaxaNode::new_with_id(1);
    let child = TaxaNode::new_with_id(2);
    assert!(parent.add_child(&child));
    assert!(!parent.add_child(&child));
    assert!(parent.is_ripe());
    assert_eq!(parent.not_incorporated_children_counter, 1);
    parent.reset();
    assert!(!parent.is_ripe());
}

#[test]
fn weightless_class_normalises_to_zero() {
    // a class whose reads all scored zero has no weight to share out; its
    // combined weights are all zero rather than summing to one
    let mut eqb = EquivalenceClassBuilder::new();
    eqb.add_group(TargetGroup::new_with_tgt(vec![1, 2]), vec![0, 0]);
    eqb.finish();
    assert_eq!(eqb.count_vec[0].1.combined_weights, vec![0, 0]);
}

#[test]
fn empty_pipeline_reports_nothing() {
    let mut c = lra::cedar::Cedar::new();
    let r = c.run(b"", 300, 1000, 100000, 100, lra::readers::Method::Pufferfish);
    let (stats, _iters, _converged) = r.unwrap_or_else(|_| panic!("run failed"));
    assert_eq!(stats.total_read_cnt, 0);
    assert_eq!(c.get_strain_abundance().len(), 0);
    let pairs = lra::assignment::assign_mappings(
        &c.queries,
        &c.query_id_2_name,
        &c.references,
        c.get_strain_abundance(),
        0,
        500000,
        false,
    );
    assert_eq!(pairs.len(), 0);
}
