use stone_genome::reindex::{find_pair, reindex_line, PairIndex};
use stone_genome::text::join_with;

fn text(v: Vec<u8>) -> String {
    String::from_utf8(v).unwrap()
}

#[test]
fn reindex_numbers_pairs_in_order_of_arrival() {
    let mut index = PairIndex::new();
    assert_eq!(reindex_line(&mut index, b"chr1,+,5,A,1,2").map(text), Some("1,5,A,1,2".to_string()));
    assert_eq!(reindex_line(&mut index, b"chr1,-,6,C,3,4").map(text), Some("2,6,C,3,4".to_string()));
    assert_eq!(reindex_line(&mut index, b"chr1,+,7,G,5,6").map(text), Some("1,7,G,5,6".to_string()));
    assert_eq!(reindex_line(&mut index, b"chr2,+,1,T,0,0").map(text), Some("3,1,T,0,0".to_string()));
    assert_eq!(text(join_with(&index.names, b'\t')), "chr1\tchr1\tchr2");
    assert_eq!(text(join_with(&index.strands, b'\t')), "+\t-\t+");
    assert_eq!(find_pair(&index, b"chr1", b"-"), 1);
    assert_eq!(find_pair(&index, b"chr9", b"-"), 3);
}

#[test]
fn reindex_short_lines() {
    let mut index = PairIndex::new();
    assert_eq!(reindex_line(&mut index, b"only"), None);
    assert_eq!(reindex_line(&mut index, b""), None);
    assert_eq!(index.names.len(), 0);
    assert_eq!(reindex_line(&mut index, b"a,b").map(text), Some("1".to_string()));
    assert_eq!(reindex_line(&mut index, b"a,b,").map(text), Some("1,".to_string()));
    assert_eq!(index.names.len(), 1);
}

#[test]
fn join_lists() {
    assert_eq!(text(join_with(&vec![], b',')), "");
    assert_eq!(text(join_with(&vec![b"a".to_vec()], b',')), "a");
    assert_eq!(text(join_with(&vec![b"a".to_vec(), b"".to_vec(), b"b".to_vec()], b',')), "a,,b");
}
