use stone_genome::codec::Interval;
use stone_genome::groups::{
    contains_zero_pair, csv_group_lines, group_columns, group_title, partition_groups,
};
use stone_genome::lines::outputline;
use stone_genome::scan::{group_records, scan_records};

fn text(v: Vec<u8>) -> String {
    String::from_utf8(v).unwrap()
}

#[test]
fn csv_lines_of_groups() {
    let buf = b"chrA\nA,1,2\nC,0,0\nchrB\nG,3,4\n";
    let recs = scan_records(buf, b',');
    let groups = group_records(&recs);
    assert_eq!(groups.len(), 2);
    let a: Vec<String> = csv_group_lines(buf, &recs, groups[0]).into_iter().map(text).collect();
    assert_eq!(a, vec!["chrA,1,A,1,2"]);
    let b: Vec<String> = csv_group_lines(buf, &recs, groups[1]).into_iter().map(text).collect();
    assert_eq!(b, vec!["chrB,1,G,3,4"]);
    assert_eq!(text(group_title(buf, &recs, groups[0])), "chrA");
}

#[test]
fn csv_lines_count_skipped_records() {
    let buf = b"chrA\nA,0,0\nC,1,5\n\nchrB\nG,1,1\n";
    let recs = scan_records(buf, b',');
    let groups = group_records(&recs);
    let a: Vec<String> = csv_group_lines(buf, &recs, groups[0]).into_iter().map(text).collect();
    assert_eq!(a, vec!["chrA,2,C,1,5"]);
}

#[test]
fn columns_of_a_coded_group() {
    let buf = b"chrA\nAC\t3x3,0x2,7\nAG\t0x2,4x2,0x2\nchrB\nAC\t1\n";
    let recs = scan_records(buf, b'\t');
    let groups = group_records(&recs);
    assert_eq!(groups.len(), 2);
    let cols = group_columns(buf, &recs, groups[0]).unwrap();
    assert_eq!(
        cols,
        vec![
            vec![
                Interval { value: 3, start: 0, end: 2 },
                Interval { value: 7, start: 5, end: 5 }
            ],
            vec![Interval { value: 4, start: 2, end: 3 }],
        ]
    );
    let title = group_title(buf, &recs, groups[0]);
    let lines: Vec<String> = outputline(&cols, &title).into_iter().map(text).collect();
    assert_eq!(
        lines,
        vec!["chrA, 1, 3, 0", "chrA, 2, 3, 0", "chrA, 3, 3, 4", "chrA, 4, 0, 4", "chrA, 6, 7, 0"]
    );
}

#[test]
fn columns_fail_on_damaged_record() {
    let buf = b"chrA\nAC\t3xx\nchrB\n";
    let recs = scan_records(buf, b'\t');
    let groups = group_records(&recs);
    assert_eq!(group_columns(buf, &recs, groups[0]), None);
}

#[test]
fn zero_pairs() {
    assert!(contains_zero_pair(b"A,0,0"));
    assert!(contains_zero_pair(b"A,0,05"));
    assert!(!contains_zero_pair(b"A,0,1"));
    assert!(!contains_zero_pair(b",0,"));
    assert!(!contains_zero_pair(b""));
}

#[test]
fn partition_by_count() {
    assert_eq!(partition_groups(10, 3), vec![(0, 4), (4, 7), (7, 10)]);
    assert_eq!(partition_groups(2, 4), vec![(0, 1), (1, 2), (2, 2), (2, 2)]);
    assert_eq!(partition_groups(0, 2), vec![(0, 0), (0, 0)]);
    assert_eq!(partition_groups(7, 1), vec![(0, 7)]);
}
