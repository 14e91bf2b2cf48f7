use stone_genome::scan::{byte_is_alpha, group_records, scan_records, Group, Record};

fn rec(start: usize, end: usize, is_title: bool) -> Record {
    Record { start, end, is_title }
}

#[test]
fn scan_two_groups_of_two_records() {
    let buf = b"chrA\nA,1,2\nchrB\nB,3,4\n";
    let recs = scan_records(buf, b',');
    assert_eq!(
        recs,
        vec![rec(0, 5, true), rec(5, 11, false), rec(11, 16, true), rec(16, 22, false)]
    );
    let groups = group_records(&recs);
    assert_eq!(groups, vec![Group { first: 0, end: 2 }, Group { first: 2, end: 4 }]);
}

#[test]
fn scan_line_without_separator_is_a_title() {
    let buf = b"chrA\nAAA\nchrB\nBBB\n";
    let recs = scan_records(buf, b',');
    assert_eq!(
        recs,
        vec![rec(0, 5, true), rec(5, 9, true), rec(9, 14, true), rec(14, 18, false)]
    );
    let groups = group_records(&recs);
    assert_eq!(
        groups,
        vec![Group { first: 0, end: 1 }, Group { first: 1, end: 2 }, Group { first: 2, end: 4 }]
    );
}

#[test]
fn scan_emits_open_record_at_end() {
    let buf = b"chrA\nA\t1";
    let recs = scan_records(buf, b'\t');
    assert_eq!(recs, vec![rec(0, 5, true), rec(5, 8, false)]);
}

#[test]
fn scan_keeps_blank_lines_inside_a_record() {
    let buf = b"chrA\nA,1\n\nchrB\n";
    let recs = scan_records(buf, b',');
    assert_eq!(recs, vec![rec(0, 5, true), rec(5, 10, false), rec(10, 15, false)]);
}

#[test]
fn scan_without_letters_finds_nothing() {
    assert_eq!(scan_records(b"12\n34\n", b','), Vec::<Record>::new());
    assert_eq!(scan_records(b"", b','), Vec::<Record>::new());
    assert_eq!(group_records(&[]), Vec::<Group>::new());
}

#[test]
fn scan_skips_bytes_before_first_letter() {
    let recs = scan_records(b"12\nchrA\nA,1\n", b',');
    assert_eq!(recs, vec![rec(3, 8, true), rec(8, 12, false)]);
}

#[test]
fn records_before_first_title_belong_to_no_group() {
    let recs = vec![rec(0, 4, false), rec(4, 8, true), rec(8, 12, false)];
    assert_eq!(group_records(&recs), vec![Group { first: 1, end: 3 }]);
}

#[test]
fn alpha_bytes() {
    assert!(byte_is_alpha(b'a'));
    assert!(byte_is_alpha(b'Z'));
    assert!(!byte_is_alpha(b'1'));
    assert!(!byte_is_alpha(b'\n'));
    assert!(!byte_is_alpha(b'['));
}
