use stone_genome::genes::{
    count_bases, gene_line, parse_and_extend_info, parse_bed_line, parse_record_line,
    process_records, select_records, BaseCounts, BedLine, BedRecord, Record,
};

fn text(v: Vec<u8>) -> String {
    String::from_utf8(v).unwrap()
}

fn ext(info: &str) -> Option<String> {
    parse_and_extend_info(info.as_bytes()).map(text)
}

fn rec(strand: &str, position: usize, info: &str) -> Record {
    Record { strand: strand.as_bytes().to_vec(), position, info: info.as_bytes().to_vec() }
}

fn bed(start: usize, end: usize, strand: &str) -> BedRecord {
    BedRecord {
        start,
        end,
        strand: strand.as_bytes().to_vec(),
        name: b"geneA".to_vec(),
        tname: b"tx1".to_vec(),
    }
}

#[test]
fn extend_info_for_each_base() {
    assert_eq!(ext("A,2,10,1,1,0"), Some("A,2,10,1,1,0,8,1,1,0".to_string()));
    assert_eq!(ext("C,2,10,0,0,0,4,5,6"), Some("C,2,10,0,0,0,4,5,6,4,8,5,6".to_string()));
    assert_eq!(
        ext("G,1,3,0,0,0,0,0,0,7,8,9"),
        Some("G,1,3,0,0,0,0,0,0,7,8,9,7,8,2,9".to_string())
    );
    assert_eq!(
        ext("T,1,5,0,0,0,0,0,0,0,0,0,3,4,5"),
        Some("T,1,5,0,0,0,0,0,0,0,0,0,3,4,5,3,4,5,4".to_string())
    );
    assert_eq!(ext("N,1,5"), Some("N,1,5,0,0,0,0".to_string()));
}

#[test]
fn extend_info_edge_cases() {
    assert_eq!(ext("A,9,5,1,2,3"), Some("A,9,5,1,2,3,0,1,2,3".to_string()));
    assert_eq!(ext("A,x,y,1,2,3"), Some("A,x,y,1,2,3,0,1,2,3".to_string()));
    assert_eq!(ext("C,1,5,1,1,1"), None);
    assert_eq!(ext("A,1,5,1,q,1"), None);
    assert_eq!(ext("A,1"), None);
    assert_eq!(ext(",1,5"), None);
    assert_eq!(ext(""), None);
}

#[test]
fn base_counts_from_fields() {
    let fields: Vec<Vec<u8>> =
        ["A", "2", "10", "1", "1", "0"].iter().map(|s| s.as_bytes().to_vec()).collect();
    assert_eq!(count_bases(&fields), Some(BaseCounts { a: 8, c: 1, g: 1, t: 0 }));
}

#[test]
fn select_keeps_first_of_each_position_in_span() {
    let records = vec![
        rec("+", 5, "a"),
        rec("-", 6, "b"),
        rec("+", 6, "c"),
        rec("+", 5, "d"),
        rec("+", 11, "e"),
        rec("+", 10, "f"),
    ];
    assert_eq!(select_records(&bed(5, 10, "+"), &records), vec![0, 2, 5]);
    assert_eq!(select_records(&bed(5, 10, "-"), &records), vec![1]);
    assert_eq!(select_records(&bed(20, 30, "+"), &records), Vec::<usize>::new());
}

#[test]
fn gene_line_text() {
    let r = rec("+", 42, "A,2,10,1,1,0");
    let line = gene_line(b"NC_000001", &bed(1, 100, "+"), &r, 1).map(text);
    assert_eq!(line, Some("NC_000001,geneA,tx1,42,+,A,2,10,1,1,0,8,1,1,0,1\n".to_string()));
    let bad = rec("+", 42, "A,2");
    assert_eq!(gene_line(b"NC_000001", &bed(1, 100, "+"), &bad, 0), None);
}

#[test]
fn process_records_writes_a_random_bit_per_line() {
    let records = vec![rec("+", 42, "N,1,5"), rec("+", 43, "N,2,6"), rec("+", 42, "N,9,9")];
    let beds = vec![bed(40, 42, "+"), bed(1, 100, "+")];
    for _ in 0..20 {
        let mut out = b"head\n".to_vec();
        assert!(process_records(b"NC_1", &beds, &records, &mut out));
        let got = text(out);
        let lines: Vec<&str> = got.lines().collect();
        assert_eq!(lines.len(), 4);
        assert_eq!(lines[0], "head");
        for (line, want) in lines[1..].iter().zip([
            "NC_1,geneA,tx1,42,+,N,1,5,0,0,0,0,",
            "NC_1,geneA,tx1,42,+,N,1,5,0,0,0,0,",
            "NC_1,geneA,tx1,43,+,N,2,6,0,0,0,0,",
        ]) {
            assert!(*line == format!("{}0", want) || *line == format!("{}1", want));
        }
        assert!(got.ends_with('\n'));
    }
}

#[test]
fn process_records_stops_at_bad_info() {
    let records = vec![rec("+", 42, "A,1")];
    let mut out = Vec::new();
    assert!(!process_records(b"NC_1", &vec![bed(1, 100, "+")], &records, &mut out));
    let mut out = b"x".to_vec();
    assert!(process_records(b"NC_1", &vec![], &records, &mut out));
    assert_eq!(out, b"x".to_vec());
}

#[test]
fn record_line() {
    let (chr, r) = parse_record_line(b"chr1,+,42,A,2,10,1,1,0").unwrap();
    assert_eq!(chr, b"chr1".to_vec());
    assert_eq!(r.strand, b"+".to_vec());
    assert_eq!(r.position, 42);
    assert_eq!(r.info, b"A,2,10,1,1,0".to_vec());
    let (_, r) = parse_record_line(b"chr1,+,42").unwrap();
    assert_eq!(r.info, b"".to_vec());
    assert!(parse_record_line(b"chr1,+").is_none());
    assert!(parse_record_line(b"chr1,+,x,A").is_none());
}

#[test]
fn bed_line() {
    match parse_bed_line(b"chr1\t100 200 +  geneA=x=y tx1 more") {
        BedLine::Row(chr, b) => {
            assert_eq!(chr, b"chr1".to_vec());
            assert_eq!(b.start, 100);
            assert_eq!(b.end, 200);
            assert_eq!(b.strand, b"+".to_vec());
            assert_eq!(b.name, b"geneA".to_vec());
            assert_eq!(b.tname, b"tx1".to_vec());
        }
        _ => panic!("row expected"),
    }
    assert!(matches!(parse_bed_line(b"   "), BedLine::Blank));
    assert!(matches!(parse_bed_line(b""), BedLine::Blank));
    assert!(matches!(parse_bed_line(b"chr1 100 200"), BedLine::Malformed));
    assert!(matches!(parse_bed_line(b"chr1 a 200 + g t"), BedLine::Malformed));
}

#[test]
fn random_bits_take_both_values() {
    let records: Vec<Record> = (0..200).map(|i| rec("+", i, "N,1,5")).collect();
    let mut out = Vec::new();
    assert!(process_records(b"c", &vec![bed(0, 1000, "+")], &records, &mut out));
    let got = text(out);
    assert_eq!(got.lines().count(), 200);
    assert!(got.lines().any(|l| l.ends_with(",0")));
    assert!(got.lines().any(|l| l.ends_with(",1")));
    assert!(got.lines().all(|l| l.ends_with(",0") || l.ends_with(",1")));
}
