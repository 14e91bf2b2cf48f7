use stone_genome::report::{parse_report_line, passes_depth};

#[test]
fn depth_filter() {
    assert!(passes_depth(1, 10, 2, 9, 5));
    assert!(!passes_depth(1, 5, 2, 9, 5));
    assert!(!passes_depth(1, 10, 2, 5, 5));
    assert!(!passes_depth(3, 12, 2, 9, 5));
    assert!(passes_depth(2, 12, 2, 9, 5));
    assert!(!passes_depth(1, 10, 3, 12, 5));
    assert!(!passes_depth(0, 0, 0, 0, 0));
    assert!(passes_depth(0, 1, 0, 1, 0));
}

#[test]
fn depth_filter_does_not_wrap() {
    assert!(!passes_depth(1 << 30, u32::MAX, 0, u32::MAX, 0));
    assert!(!passes_depth(u32::MAX, u32::MAX, 0, u32::MAX, 0));
    assert!(passes_depth((1 << 30) - 1, u32::MAX, 0, u32::MAX, 0));
}

#[test]
fn report_line() {
    let line = b"NC_1,geneA,tx1,42,+,A,2,10,0,0,0,0,0,0,0,0,0,0,0,0,0,0,G,3,12,8,1,1,0,1";
    let row = parse_report_line(line).unwrap();
    assert_eq!(row.chr_id, b"NC_1".to_vec());
    assert_eq!(row.gene_id, b"geneA".to_vec());
    assert_eq!(row.position, b"42".to_vec());
    assert_eq!(row.rf_count, 2);
    assert_eq!(row.rf_depth, 10);
    assert_eq!(row.pipe_count, 3);
    assert_eq!(row.pipe_depth, 12);
}

#[test]
fn report_line_with_unreadable_counts_and_short_line() {
    let line = b"c,g,t,1,+,A,x,-1,0,0,0,0,0,0,0,0,0,0,0,0,0,0,G,,4294967296";
    let row = parse_report_line(line).unwrap();
    assert_eq!(row.rf_count, 0);
    assert_eq!(row.rf_depth, 0);
    assert_eq!(row.pipe_count, 0);
    assert_eq!(row.pipe_depth, 0);
    assert!(parse_report_line(b"c,g,t,1").is_none());
    assert!(parse_report_line(b"").is_none());
}
