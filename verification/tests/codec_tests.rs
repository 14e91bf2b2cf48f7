use stone_genome::codec::{decode, encode, has_width, total_len, Interval, Token};

fn tok(value: i32, count: usize) -> Token {
    Token { value, count }
}

fn iv(value: i32, start: usize, end: usize) -> Interval {
    Interval { value, start, end }
}

#[test]
fn encode_merges_equal_neighbours() {
    let tokens = encode(&[3, 3, 3, 0, 0, 7]);
    assert_eq!(tokens, vec![tok(3, 3), tok(0, 2), tok(7, 1)]);
}

#[test]
fn decode_drops_zero_runs() {
    let tokens = vec![tok(3, 3), tok(0, 2), tok(7, 1)];
    assert_eq!(decode(&tokens, 0), vec![iv(3, 0, 2), iv(7, 5, 5)]);
}

#[test]
fn decode_starts_at_offset() {
    let tokens = vec![tok(0, 1), tok(4, 2)];
    assert_eq!(decode(&tokens, 10), vec![iv(4, 11, 12)]);
}

#[test]
fn encode_of_empty_row_is_empty() {
    assert_eq!(encode(&[]), Vec::<Token>::new());
    assert_eq!(decode(&[], 5), Vec::<Interval>::new());
}

#[test]
fn encode_counts_sum_to_length_and_neighbours_differ() {
    let row = [1, 1, 2, 2, 2, 1, 0, 0, 0, 0, 5];
    let tokens = encode(&row);
    let sum: usize = tokens.iter().map(|t| t.count).sum();
    assert_eq!(sum, row.len());
    assert_eq!(total_len(&tokens), Some(row.len()));
    assert!(has_width(&tokens, row.len()));
    assert!(!has_width(&tokens, row.len() + 1));
    for w in tokens.windows(2) {
        assert_ne!(w[0].value, w[1].value);
    }
    for t in &tokens {
        assert!(t.count >= 1);
    }
}

#[test]
fn decode_of_encode_gives_back_the_non_zero_cells() {
    let row = [0, 0, 9, 9, -4, 0, 7, 7, 7, 0];
    let ivs = decode(&encode(&row), 0);
    let mut rebuilt = vec![0i32; row.len()];
    for i in &ivs {
        assert_ne!(i.value, 0);
        for p in i.start..=i.end {
            rebuilt[p] = i.value;
        }
    }
    assert_eq!(rebuilt, row.to_vec());
}

#[test]
fn total_len_reports_overflow() {
    let tokens = vec![tok(1, usize::MAX), tok(2, 1)];
    assert_eq!(total_len(&tokens), None);
    assert!(!has_width(&tokens, 0));
}
