use lra::readers::{
    analyze_header, parse_u64, read_initial_alignments, transform_score, IngestErrorKind,
    LineAssembler, Method,
};

fn lines_of(text: &str) -> Vec<Vec<u8>> {
    text.split('\n').map(|l| l.as_bytes().to_vec()).collect()
}

#[test]
fn parse_u64_exact_values() {
    assert_eq!(parse_u64(b"0"), Some(0));
    assert_eq!(parse_u64(b"1000"), Some(1000));
    assert_eq!(parse_u64(b"18446744073709551615"), Some(u64::MAX));
    assert_eq!(parse_u64(b"18446744073709551616"), None);
    assert_eq!(parse_u64(b""), None);
    assert_eq!(parse_u64(b"12a"), None);
}

#[test]
fn score_transform_per_method() {
    // bowtie2 shifts by 160 and clamps non-positive results to one
    assert_eq!(transform_score(Some(-200), Method::Bowtie2), 1);
    assert_eq!(transform_score(Some(-160), Method::Bowtie2), 1);
    assert_eq!(transform_score(Some(-100), Method::Bowtie2), 60);
    assert_eq!(transform_score(Some(0), Method::Bowtie2), 160);
    // other methods take the score as is, clamping negatives to zero
    assert_eq!(transform_score(Some(-5), Method::Pufferfish), 0);
    assert_eq!(transform_score(Some(42), Method::Minimap2), 42);
    // a missing tag scores zero
    assert_eq!(transform_score(None, Method::Pufferfish), 0);
}

#[test]
fn header_builds_reference_table() {
    let lines = lines_of("@SQ\tSN:R1\tLN:1000\n@SQ\tSN:R2\tLN:50\n@PG\tID:x");
    let refs = analyze_header(&lines).unwrap_or_else(|_| panic!("header failed"));
    assert_eq!(refs.len(), 2);
    assert_eq!(refs[0].ref_name, b"R1".to_vec());
    assert_eq!(refs[0].ref_len, 1000);
    assert_eq!(refs[1].ref_name, b"R2".to_vec());
    assert_eq!(refs[1].ref_len, 50);
}

#[test]
fn header_missing_name_field_is_fatal() {
    let lines = lines_of("@SQ\tLN:1000");
    let e = analyze_header(&lines).err().unwrap();
    assert!(matches!(e.kind, IngestErrorKind::MissingField));
    assert_eq!(e.line, 1);
}

#[test]
fn header_bad_length_is_fatal() {
    let lines = lines_of("@SQ\tSN:R1\tLN:12x4");
    let e = analyze_header(&lines).err().unwrap();
    assert!(matches!(e.kind, IngestErrorKind::BadNumber));
    assert_eq!(e.line, 1);
    let zero = lines_of("@SQ\tSN:R1\tLN:0");
    let e2 = analyze_header(&zero).err().unwrap();
    assert!(matches!(e2.kind, IngestErrorKind::BadNumber));
}

#[test]
fn unknown_reference_is_fatal() {
    let data = b"@SQ\tSN:R1\tLN:1000\nr1\t0\tR9\t100\t60\t4M\t*\t0\t0\tACGT\t*\tAS:i:60\n";
    let e = read_initial_alignments(data, Method::Pufferfish).err().unwrap();
    assert!(matches!(e.kind, IngestErrorKind::UnknownReference));
    assert_eq!(e.line, 2);
}

#[test]
fn short_record_is_fatal() {
    let data = b"@SQ\tSN:R1\tLN:1000\nr1\t0\tR1\t100\n";
    let e = read_initial_alignments(data, Method::Pufferfish).err().unwrap();
    assert!(matches!(e.kind, IngestErrorKind::MissingField));
}

#[test]
fn malformed_score_tag_is_fatal() {
    let data = b"@SQ\tSN:R1\tLN:1000\nr1\t0\tR1\t100\t60\t4M\t*\t0\t0\tACGT\t*\tAS:i:x9\n";
    let e = read_initial_alignments(data, Method::Pufferfish).err().unwrap();
    assert!(matches!(e.kind, IngestErrorKind::BadNumber));
}

#[test]
fn reads_partition_into_mapped_and_unmapped() {
    // every read is either unmapped or mapped, and the two counts add up
    let data = b"@SQ\tSN:R1\tLN:1000\n\
r1\t0\tR1\t100\t60\t4M\t*\t0\t0\tACGT\t*\tAS:i:60\n\
r2\t4\t*\t0\t0\t*\t*\t0\t0\tACGT\t*\n\
r3\t0\tR1\t200\t60\t4M\t*\t0\t0\tACGT\t*\tAS:i:10\n";
    let (_refs, queries, names) =
        read_initial_alignments(data, Method::Pufferfish).unwrap_or_else(|_| panic!("parse"));
    assert_eq!(queries.len(), 3);
    assert_eq!(names.len(), 3);
    let unmapped = queries.iter().filter(|q| q.mappings.is_empty()).count();
    let mapped = queries.iter().filter(|q| !q.mappings.is_empty()).count();
    assert_eq!(unmapped + mapped, queries.len());
    assert_eq!(unmapped, 1);
}

#[test]
fn recurring_name_unions_mappings() {
    // a qname recurring later in the stream adds to the existing read
    let data = b"@SQ\tSN:R1\tLN:1000\n@SQ\tSN:R2\tLN:1000\n\
r1\t0\tR1\t100\t60\t4M\t*\t0\t0\tACGT\t*\tAS:i:60\n\
r2\t0\tR2\t100\t60\t4M\t*\t0\t0\tACGT\t*\tAS:i:60\n\
r1\t0\tR2\t300\t60\t4M\t*\t0\t0\tACGT\t*\tAS:i:40\n";
    let (_refs, queries, _names) =
        read_initial_alignments(data, Method::Pufferfish).unwrap_or_else(|_| panic!("parse"));
    assert_eq!(queries.len(), 2);
    assert_eq!(queries[0].mappings.len(), 2);
    assert_eq!(queries[0].total_score, 100);
}

#[test]
fn duplicate_record_is_kept_once() {
    let data = b"@SQ\tSN:R1\tLN:1000\n\
r1\t0\tR1\t100\t60\t4M\t*\t0\t0\tACGT\t*\tAS:i:60\n\
r1\t0\tR1\t100\t60\t4M\t*\t0\t0\tACGT\t*\tAS:i:60\n";
    let (_refs, queries, _names) =
        read_initial_alignments(data, Method::Pufferfish).unwrap_or_else(|_| panic!("parse"));
    assert_eq!(queries[0].mappings.len(), 1);
}

#[test]
fn chunked_lines_are_reassembled() {
    let mut assembler = LineAssembler::new();
    let first = assembler.feed(b"ab\nc");
    assert_eq!(first, vec![b"ab".to_vec()]);
    let second = assembler.feed(b"d\nef\n");
    assert_eq!(second, vec![b"cd".to_vec(), b"ef".to_vec()]);
    let left = assembler.take_leftover();
    assert_eq!(left, b"".to_vec());
}

#[test]
fn empty_input_parses_to_empty_tables() {
    let (refs, queries, names) =
        read_initial_alignments(b"", Method::Pufferfish).unwrap_or_else(|_| panic!("parse"));
    assert_eq!(refs.len(), 0);
    assert_eq!(queries.len(), 0);
    assert_eq!(names.len(), 0);
}
