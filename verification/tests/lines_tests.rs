use stone_genome::codec::{Interval, Token};
use stone_genome::densify::DenseRow;
use stone_genome::lines::{
    format_dense_row, outputline, parse_token, parse_tokens, process_line, tokv,
};

fn iv(value: i32, start: usize, end: usize) -> Interval {
    Interval { value, start, end }
}

fn text(v: Vec<u8>) -> String {
    String::from_utf8(v).unwrap()
}

#[test]
fn process_line_codes_runs() {
    assert_eq!(text(process_line(b"id\t1,1,1,2,3,3")), "id\t1x3,2,3x2");
    assert_eq!(text(process_line(b"id\t5")), "id\t5");
    assert_eq!(text(process_line(b"id\t0,0,0,0,0,0,0,0,0,0,0,0")), "id\t0x12");
    assert_eq!(text(process_line(b"id\t1,2,1")), "id\t1,2,1");
}

#[test]
fn process_line_without_tab_is_unchanged() {
    assert_eq!(text(process_line(b"no tab here,1,1")), "no tab here,1,1");
    assert_eq!(text(process_line(b"")), "");
}

#[test]
fn process_line_splits_at_first_tab_only() {
    assert_eq!(text(process_line(b"a\tb\tc,b\tc")), "a\tb\tcx2");
    assert_eq!(text(process_line(b"a\tx\ty,x\tz")), "a\tx\ty,x\tz");
    assert_eq!(text(process_line(b"a\t")), "a\t");
    assert_eq!(text(process_line(b"a\t,,")), "a\tx3");
}

#[test]
fn tokens_from_text() {
    assert_eq!(parse_token(b"3x4"), Some(Token { value: 3, count: 4 }));
    assert_eq!(parse_token(b"-3"), Some(Token { value: -3, count: 1 }));
    assert_eq!(parse_token(b"3x0"), None);
    assert_eq!(parse_token(b"3x"), None);
    assert_eq!(parse_token(b"x3"), None);
    assert_eq!(parse_token(b""), None);
    assert_eq!(parse_token(b"3x4x9"), Some(Token { value: 3, count: 4 }));
    assert_eq!(
        parse_tokens(b"3x3,0x2,7"),
        Some(vec![
            Token { value: 3, count: 3 },
            Token { value: 0, count: 2 },
            Token { value: 7, count: 1 }
        ])
    );
    assert_eq!(parse_tokens(b"3x3,,7"), None);
    assert_eq!(parse_tokens(b"3x3,a"), None);
}

#[test]
fn tokv_reads_second_field() {
    assert_eq!(tokv(b"1\t3x3,0x2,7\n"), Some(vec![iv(3, 0, 2), iv(7, 5, 5)]));
    assert_eq!(tokv(b"1\t 0x4 \tignored"), Some(vec![]));
    assert_eq!(tokv(b"no second field"), None);
    assert_eq!(tokv(b"1\t3xq"), None);
    assert_eq!(tokv(b"1\t1x18446744073709551615,2"), None);
}

#[test]
fn dense_row_text() {
    let row = DenseRow { position: 5, values: vec![7, 0, -2] };
    assert_eq!(text(format_dense_row(b" chrA\n", &row)), "chrA, 6, 7, 0, -2");
    let last = DenseRow { position: usize::MAX, values: vec![1] };
    assert_eq!(
        text(format_dense_row(b"t", &last)),
        format!("t, {}, 1", usize::MAX as u128 + 1)
    );
}

#[test]
fn outputline_of_one_column() {
    let cols = vec![vec![iv(3, 0, 2), iv(7, 5, 5)]];
    let lines: Vec<String> = outputline(&cols, b"chrA\n").into_iter().map(text).collect();
    assert_eq!(lines, vec!["chrA, 1, 3", "chrA, 2, 3", "chrA, 3, 3", "chrA, 6, 7"]);
}
