use demux_fastq::{
    generate_demux_map, generate_mismatches, get_record_bc, route_record, BarcodeAssignment,
    DemuxError, DestinationTable,
};
use demux_fastq::path::normalize_path;
use std::collections::HashSet;

fn assign(s: &str) -> BarcodeAssignment {
    s.parse::<BarcodeAssignment>().unwrap()
}

fn record(head: &str, seq: &str) -> Vec<u8> {
    format!("@{}\n{}\n+\n{}\n", head, seq, "I".repeat(seq.len())).into_bytes()
}

/// Routes records in order, appending each matched one to its destination's
/// bytes, and stops at the first header that holds no barcode.
fn route_all(
    table: &DestinationTable,
    outputs: &mut Vec<Vec<u8>>,
    records: &[(&str, Vec<u8>)],
) -> Result<(), DemuxError> {
    for (head, bytes) in records {
        if let Some(index) = route_record(table, head.as_bytes())? {
            outputs[index].extend_from_slice(bytes);
        }
    }
    Ok(())
}

#[test]
fn zero_budget_gives_the_barcode_alone() {
    assert_eq!(generate_mismatches(b"ACGT".to_vec(), 0), vec![b"ACGT".to_vec()]);
    assert_eq!(generate_mismatches(b"A+Z".to_vec(), 0), vec![b"A+Z".to_vec()]);
    assert_eq!(generate_mismatches(Vec::new(), 3), vec![Vec::<u8>::new()]);
}

#[test]
fn one_substitution_count() {
    let v = generate_mismatches(b"ACGT".to_vec(), 1);
    assert_eq!(v.len(), 1 + 4 * 4);
    let set: HashSet<Vec<u8>> = v.iter().cloned().collect();
    assert_eq!(set.len(), v.len());
    assert!(set.contains(&b"ACGT".to_vec()));
    assert!(set.contains(&b"NCGT".to_vec()));
    assert!(set.contains(&b"ACGA".to_vec()));
    assert!(!set.contains(&b"AAGA".to_vec()));
}

#[test]
fn separators_are_never_substituted() {
    let v = generate_mismatches(b"AC+GT".to_vec(), 2);
    for s in &v {
        assert_eq!(s.len(), 5);
        assert_eq!(s[2], b'+');
    }
    let one = generate_mismatches(b"AC+GT".to_vec(), 1);
    assert_eq!(one.len(), 1 + 4 * 4);
    assert_eq!(generate_mismatches(b"XYZ".to_vec(), 2), vec![b"XYZ".to_vec()]);
}

#[test]
fn two_substitutions_reach_every_pair() {
    let v = generate_mismatches(b"AA".to_vec(), 2);
    assert_eq!(v.len(), 25);
    let n = generate_mismatches(b"N".to_vec(), 1);
    let set: HashSet<Vec<u8>> = n.into_iter().collect();
    let want: HashSet<Vec<u8>> = ["A", "C", "G", "T", "N"]
        .iter()
        .map(|s| s.as_bytes().to_vec())
        .collect();
    assert_eq!(set, want);
}

#[test]
fn parse_assignments() {
    let a = assign("AAA=out.fq");
    assert_eq!(a.barcode(), b"AAA");
    assert_eq!(a.filepath(), b"out.fq");
    let b = assign("AC=dir/x=y.fq");
    assert_eq!(b.barcode(), b"AC");
    assert_eq!(b.filepath(), b"dir/x=y.fq");
    for bad in ["AAA", "=out.fq", "AAA=", "", "="] {
        assert_eq!(
            bad.parse::<BarcodeAssignment>().unwrap_err(),
            DemuxError::AssignmentFormat
        );
    }
}

#[test]
fn duplicate_assignment_gives_one_writer() {
    let (table, paths) = generate_demux_map(&vec![assign("AAA=f1"), assign("AAA=f1")], 0);
    assert_eq!(paths, vec![b"f1".to_vec()]);
    assert_eq!(table.get(b"AAA"), Some(0));
    assert_eq!(table.get(b"AAC"), None);
}

#[test]
fn shared_destination_gives_one_index() {
    let (table, paths) = generate_demux_map(&vec![assign("AAA=f1"), assign("AAC=f1")], 0);
    assert_eq!(paths, vec![b"f1".to_vec()]);
    assert_eq!(table.get(b"AAA"), Some(0));
    assert_eq!(table.get(b"AAC"), Some(0));
}

#[test]
fn paths_are_indexed_first_seen() {
    let assignments = vec![assign("AAA=b"), assign("CCC=a"), assign("GGG=b"), assign("TTT=c")];
    let (table, paths) = generate_demux_map(&assignments, 0);
    assert_eq!(paths, vec![b"b".to_vec(), b"a".to_vec(), b"c".to_vec()]);
    assert_eq!(table.get(b"AAA"), Some(0));
    assert_eq!(table.get(b"CCC"), Some(1));
    assert_eq!(table.get(b"GGG"), Some(0));
    assert_eq!(table.get(b"TTT"), Some(2));
}

#[test]
fn later_assignment_wins_on_overlap() {
    let (table, paths) = generate_demux_map(&vec![assign("AAA=f1"), assign("AAC=f2")], 1);
    assert_eq!(paths.len(), 2);
    assert_eq!(table.get(b"AAA"), Some(1));
    assert_eq!(table.get(b"AAG"), Some(1));
    assert_eq!(table.get(b"CAA"), Some(0));
    assert_eq!(table.get(b"CAC"), Some(1));
    assert_eq!(table.get(b"CCC"), None);
}

#[test]
fn table_insert_overwrites() {
    let mut t = DestinationTable::new();
    assert_eq!(t.get(b"AAA"), None);
    t.insert(b"AAA".to_vec(), 3);
    t.insert(b"CCC".to_vec(), 1);
    t.insert(b"AAA".to_vec(), 2);
    assert_eq!(t.get(b"AAA"), Some(2));
    assert_eq!(t.get(b"CCC"), Some(1));
    assert_eq!(t.get(b"AA"), None);
}

#[test]
fn barcode_follows_last_colon() {
    assert_eq!(get_record_bc(b"read1:extra:ACGT").unwrap(), b"ACGT");
    assert_eq!(get_record_bc(b":A").unwrap(), b"A");
    assert_eq!(get_record_bc(b"read1:").unwrap(), b"");
    assert_eq!(get_record_bc(b"read1").unwrap_err(), DemuxError::MalformedHeader);
    assert_eq!(get_record_bc(b"").unwrap_err(), DemuxError::MalformedHeader);
}

#[test]
fn route_hit_and_miss() {
    let mut table = DestinationTable::new();
    table.insert(b"AAA".to_vec(), 0);
    assert_eq!(route_record(&table, b"r1 1:N:0:AAA"), Ok(Some(0)));
    assert_eq!(route_record(&table, b"r2 1:N:0:GGG"), Ok(None));
    let mut outputs = vec![Vec::new()];
    let hit = record("r1 1:N:0:AAA", "ACGT");
    let miss = record("r2 1:N:0:GGG", "TTTT");
    route_all(&table, &mut outputs, &[("r1 1:N:0:AAA", hit.clone())]).unwrap();
    assert_eq!(outputs[0], hit);
    route_all(&table, &mut outputs, &[("r2 1:N:0:GGG", miss)]).unwrap();
    assert_eq!(outputs[0], hit);
}

#[test]
fn end_to_end_routing_keeps_order() {
    let (table, paths) = generate_demux_map(&vec![assign("AAA=out.fq")], 1);
    assert_eq!(paths, vec![b"out.fq".to_vec()]);
    let r1 = record("a:AAA", "ACGTACGT");
    let r2 = record("b:AAT", "GGGG");
    let r3 = record("c:ZZZ", "CCCC");
    let mut outputs = vec![Vec::new(); paths.len()];
    route_all(
        &table,
        &mut outputs,
        &[("a:AAA", r1.clone()), ("b:AAT", r2.clone()), ("c:ZZZ", r3)],
    )
    .unwrap();
    let mut want = r1;
    want.extend_from_slice(&r2);
    assert_eq!(outputs[0], want);
}

#[test]
fn malformed_header_halts_routing() {
    let (table, _) = generate_demux_map(&vec![assign("AAA=out.fq")], 0);
    let r1 = record("a:AAA", "ACGT");
    let r2 = record("no separator", "ACGT");
    let r3 = record("c:AAA", "TTTT");
    assert_eq!(route_record(&table, b"no separator"), Err(DemuxError::MalformedHeader));
    let mut outputs = vec![Vec::new()];
    let r = route_all(
        &table,
        &mut outputs,
        &[("a:AAA", r1.clone()), ("no separator", r2), ("c:AAA", r3)],
    );
    assert_eq!(r, Err(DemuxError::MalformedHeader));
    assert_eq!(outputs[0], r1);
}

#[test]
fn two_substitutions_cover_the_hamming_ball() {
    let v = generate_mismatches(b"AAA".to_vec(), 2);
    assert_eq!(v.len(), 1 + 3 * 4 + 3 * 16);
    for s in &v {
        let diffs = s.iter().zip(b"AAA".iter()).filter(|(x, y)| x != y).count();
        assert!(diffs <= 2);
    }
    let set: HashSet<Vec<u8>> = v.into_iter().collect();
    assert!(set.contains(&b"CGA".to_vec()));
    assert!(!set.contains(&b"CGT".to_vec()));
}

#[test]
fn paths_normalize_by_components() {
    let cases: [(&str, &str); 12] = [
        ("out/a.fq", "out/a.fq"),
        ("out//a.fq", "out/a.fq"),
        ("out/./a.fq", "out/a.fq"),
        ("out/a.fq/", "out/a.fq"),
        ("/out///a.fq", "/out/a.fq"),
        ("//a", "/a"),
        ("/./a", "/a"),
        ("./a", "./a"),
        (".//a/.", "./a"),
        ("./", "."),
        (".a/../b", ".a/../b"),
        ("", ""),
    ];
    for (input, want) in cases {
        assert_eq!(normalize_path(input.as_bytes()), want.as_bytes().to_vec(), "{}", input);
    }
}

#[test]
fn same_file_written_two_ways_gives_one_writer() {
    let assignments = vec![
        assign("AAA=out//a.fq"),
        assign("CCC=out/./a.fq"),
        assign("GGG=out/a.fq"),
        assign("TTT=./b.fq"),
        assign("ACA=b.fq"),
    ];
    let (table, paths) = generate_demux_map(&assignments, 0);
    assert_eq!(paths, vec![b"out/a.fq".to_vec(), b"./b.fq".to_vec(), b"b.fq".to_vec()]);
    assert_eq!(table.get(b"AAA"), Some(0));
    assert_eq!(table.get(b"CCC"), Some(0));
    assert_eq!(table.get(b"GGG"), Some(0));
    assert_eq!(table.get(b"TTT"), Some(1));
    assert_eq!(table.get(b"ACA"), Some(2));
}
