use stone_genome::merge::{merge_data, GeneEntry, Patch, PositionKey, SourceRow};
use stone_genome::tables::{
    csv_header, csv_row, parse_file1, parse_file2, parse_file3, parse_index_names,
    parse_index_strands, parse_mutation_line, parse_termination_line, parse_truncation_line,
    Parsed,
};

fn lines(v: &[&str]) -> Vec<Vec<u8>> {
    v.iter().map(|s| s.as_bytes().to_vec()).collect()
}

fn key_of(r: &SourceRow) -> (String, char, u32) {
    (String::from_utf8(r.key.chr_id.clone()).unwrap(), r.key.strand as char, r.key.position)
}

#[test]
fn termination_line() {
    let r = parse_termination_line(b"chr1, 5, A, 3, 10, extra").unwrap();
    assert_eq!(key_of(&r), ("chr1".to_string(), '+', 5));
    assert!(matches!(r.patch, Patch::Termination { base1: Some(b'A'), rt_1: 3, bd_1: 10 }));
    let r = parse_termination_line(b"chr1,5,,3,10").unwrap();
    assert!(matches!(r.patch, Patch::Termination { base1: None, rt_1: 3, bd_1: 10 }));
    assert!(parse_termination_line(b"@ColNum 5").is_none());
    assert!(parse_termination_line(b"chr1,5,A,3").is_none());
    assert!(parse_termination_line(b"chr1,x,A,3,10").is_none());
    assert!(parse_termination_line(b"chr1,5,A,3,z").is_none());
    assert!(parse_termination_line(b"chr1,-5,A,3,10").is_none());
}

#[test]
fn mutation_line() {
    let r = parse_mutation_line(b"chr1,42,1,0,0,0,0,0,0,0,0,0,0,0,x,9").unwrap();
    assert_eq!(key_of(&r), ("chr1".to_string(), '+', 42));
    match r.patch {
        Patch::Mutation { mutations } => {
            assert_eq!(mutations, [1, 0, 0, 0, 0, 0, 0, 0, 0, 0, 0, 0, 0, 9]);
        }
        _ => panic!("mutation expected"),
    }
    assert!(parse_mutation_line(b"chr1,42,1,0,0,0,0,0,0,0,0,0,0,0,0").is_none());
    assert!(parse_mutation_line(b"@x,42,1,0,0,0,0,0,0,0,0,0,0,0,0,0").is_none());
    assert!(parse_mutation_line(b"chr1,q,1,0,0,0,0,0,0,0,0,0,0,0,0,0").is_none());
}

#[test]
fn truncation_line() {
    let names = lines(&["chr1", "chr2"]);
    let strands = b"+-".to_vec();
    match parse_truncation_line(b"2,7,G,1,2", &names, &strands) {
        Parsed::Row(r) => {
            assert_eq!(key_of(&r), ("chr2".to_string(), '-', 7));
            assert!(matches!(r.patch, Patch::Truncation { base3: Some(b'G'), rt_3: 1, bd_3: 2 }));
        }
        _ => panic!("row expected"),
    }
    assert!(matches!(parse_truncation_line(b"3,7,G,1,2", &names, &strands), Parsed::BadIndex));
    assert!(matches!(parse_truncation_line(b"0,7,G,1,2", &names, &strands), Parsed::BadIndex));
    assert!(matches!(parse_truncation_line(b"3,x,G,1,2", &names, &strands), Parsed::BadIndex));
    assert!(matches!(parse_truncation_line(b"x,7,G,1,2", &names, &strands), Parsed::Skip));
    assert!(matches!(parse_truncation_line(b"1,x,G,1,2", &names, &strands), Parsed::Skip));
    assert!(matches!(parse_truncation_line(b"1,7,G,1", &names, &strands), Parsed::Skip));
    assert!(matches!(parse_truncation_line(b"@ChrID_Index\ta", &names, &strands), Parsed::Skip));
}

#[test]
fn index_lines() {
    assert_eq!(parse_index_names(b"@ChrID_Index\tchr1\tchr2"), lines(&["chr1", "chr2"]));
    assert_eq!(parse_index_names(b"@ChrID_Index"), lines(&[]));
    assert_eq!(parse_index_names(b""), lines(&[]));
    assert_eq!(parse_index_strands(b"@ChrID_Strand\t+\t-\t+"), b"+-+".to_vec());
    assert_eq!(parse_index_strands(b""), b"".to_vec());
}

#[test]
fn whole_tables() {
    let t1 = parse_file1(&lines(&["@ColNum 5", "chr1,5,A,3,10", "bad", "chr1,6,C,1,2"]));
    assert_eq!(t1.len(), 2);
    assert_eq!(key_of(&t1[1]), ("chr1".to_string(), '+', 6));
    let t2 = parse_file2(&lines(&["chr1,5,1,2,3,4,5,6,7,8,9,10,11,12,13,14", "chr1,5"]));
    assert_eq!(t2.len(), 1);
    let t3 = parse_file3(&lines(&[
        "@ColNum 5",
        "@ChrID_Index\tchr1\tchr2",
        "@ChrID_Strand\t+\t-",
        "1,5,A,7,8",
        "2,9,T,1,1",
        "short",
    ]))
    .unwrap();
    assert_eq!(t3.len(), 2);
    assert_eq!(key_of(&t3[0]), ("chr1".to_string(), '+', 5));
    assert_eq!(key_of(&t3[1]), ("chr2".to_string(), '-', 9));
    assert!(parse_file3(&lines(&["@ChrID_Index\tchr1", "@ChrID_Strand\t+", "2,9,T,1,1"])).is_none());
    assert!(parse_file3(&lines(&["1,9,T,1,1"])).is_none());
    let merged = merge_data(&t1, &t2, &t3);
    assert_eq!(merged.len(), 3);
    assert_eq!(
        String::from_utf8(csv_row(&merged[0])).unwrap(),
        "chr1,+,5,A,3,10,1,2,3,4,5,6,7,8,9,10,11,12,13,14,A,7,8"
    );
    assert_eq!(
        String::from_utf8(csv_row(&merged[1])).unwrap(),
        "chr1,+,6,C,1,2,0,0,0,0,0,0,0,0,0,0,0,0,0,0,N,0,0"
    );
    assert_eq!(
        String::from_utf8(csv_row(&merged[2])).unwrap(),
        "chr2,-,9,N,0,0,0,0,0,0,0,0,0,0,0,0,0,0,0,0,T,1,1"
    );
}

#[test]
fn csv_row_of_entry_with_negative_counts() {
    let e = GeneEntry {
        key: PositionKey { chr_id: b"c".to_vec(), strand: b'-', position: 0 },
        base1: None,
        base3: Some(b'G'),
        rt_1: Some(-1),
        bd_1: None,
        mutations: [-1, 2, 3, 4, 5, 6, 7, 8, 9, 10, 11, 12, 13, 14],
        rt_3: None,
        bd_3: Some(5),
    };
    assert_eq!(
        String::from_utf8(csv_row(&e)).unwrap(),
        "c,-,0,N,-1,0,-1,2,3,4,5,6,7,8,9,10,11,12,13,14,G,0,5"
    );
}

#[test]
fn csv_heading() {
    assert_eq!(
        String::from_utf8(csv_header()).unwrap(),
        "ChrID,Strand,Position,Base1,RT1,BD1,AC,AG,AT,CA,CG,CT,GA,GC,GT,TA,TC,TG,Ins,Del,Base3,RT3,BD3"
    );
}
