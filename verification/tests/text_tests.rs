use stone_genome::text::{
    find_byte, first_of, parse_digits, parse_i32, parse_u32, parse_unsigned, parse_usize,
    push_bytes, push_decimal, push_signed, split_fields, split_trimmed, split_words, starts_with,
    trim,
};

fn strs(v: &[Vec<u8>]) -> Vec<String> {
    v.iter().map(|f| String::from_utf8(f.clone()).unwrap()).collect()
}

#[test]
fn parse_signed_numbers() {
    assert_eq!(parse_i32(b"-12"), Some(-12));
    assert_eq!(parse_i32(b"+7"), Some(7));
    assert_eq!(parse_i32(b"0"), Some(0));
    assert_eq!(parse_i32(b"007"), Some(7));
    assert_eq!(parse_i32(b"2147483647"), Some(i32::MAX));
    assert_eq!(parse_i32(b"2147483648"), None);
    assert_eq!(parse_i32(b"-2147483648"), Some(i32::MIN));
    assert_eq!(parse_i32(b"-2147483649"), None);
    assert_eq!(parse_i32(b""), None);
    assert_eq!(parse_i32(b"-"), None);
    assert_eq!(parse_i32(b"+"), None);
    assert_eq!(parse_i32(b"1a"), None);
    assert_eq!(parse_i32(b" 1"), None);
    assert_eq!(parse_i32(b"+-1"), None);
    assert_eq!(parse_i32(b"99999999999999999999999999"), None);
}

#[test]
fn parse_unsigned_numbers() {
    assert_eq!(parse_usize(b"42"), Some(42));
    assert_eq!(parse_usize(b"+42"), Some(42));
    assert_eq!(parse_usize(b"-0"), None);
    assert_eq!(parse_usize(b""), None);
    assert_eq!(parse_usize(b"18446744073709551615"), Some(usize::MAX));
    assert_eq!(parse_usize(b"18446744073709551616"), None);
    assert_eq!(parse_u32(b"4294967295"), Some(u32::MAX));
    assert_eq!(parse_u32(b"4294967296"), None);
    assert_eq!(parse_unsigned(b"10", 9), None);
    assert_eq!(parse_unsigned(b"9", 9), Some(9));
    assert_eq!(parse_digits(b"x12", 1, 100), Some(12));
    assert_eq!(parse_digits(b"x12", 3, 100), None);
}

#[test]
fn parse_agrees_with_std() {
    for s in ["0", "5", "-5", "+5", "", "-", "+", "12x", "0012", "-0", "4294967295", "2147483648"] {
        assert_eq!(parse_i32(s.as_bytes()), s.parse::<i32>().ok());
        assert_eq!(parse_u32(s.as_bytes()), s.parse::<u32>().ok());
        assert_eq!(parse_usize(s.as_bytes()), s.parse::<usize>().ok());
    }
}

#[test]
fn decimal_text() {
    let mut out = b"n=".to_vec();
    push_decimal(&mut out, 0);
    assert_eq!(out, b"n=0".to_vec());
    push_decimal(&mut out, 1234567890);
    assert_eq!(out, b"n=01234567890".to_vec());
    let mut out = Vec::new();
    push_decimal(&mut out, u128::MAX);
    assert_eq!(String::from_utf8(out).unwrap(), u128::MAX.to_string());
    let mut out = Vec::new();
    push_signed(&mut out, -5);
    push_bytes(&mut out, b";");
    push_signed(&mut out, i64::MIN);
    push_bytes(&mut out, b";");
    push_signed(&mut out, 17);
    assert_eq!(String::from_utf8(out).unwrap(), format!("-5;{};17", i64::MIN));
}

#[test]
fn fields_between_separators() {
    assert_eq!(strs(&split_fields(b"a,,b", b',')), vec!["a", "", "b"]);
    assert_eq!(strs(&split_fields(b"", b',')), vec![""]);
    assert_eq!(strs(&split_fields(b",", b',')), vec!["", ""]);
    assert_eq!(strs(&split_fields(b"abc", b',')), vec!["abc"]);
    assert_eq!(strs(&split_trimmed(b" a , b\t,c ")), vec!["a", "b", "c"]);
}

#[test]
fn white_space() {
    assert_eq!(trim(b"  a b \n"), b"a b");
    assert_eq!(trim(b"   "), b"");
    assert_eq!(trim(b""), b"");
    assert_eq!(trim(b"x"), b"x");
    assert_eq!(strs(&split_words(b"  ab  c\td ")), vec!["ab", "c", "d"]);
    assert_eq!(split_words(b" \n ").len(), 0);
    assert_eq!(strs(&split_words(b"one")), vec!["one"]);
}

#[test]
fn prefixes_and_positions() {
    assert!(starts_with(b"@ChrID_Index a", b"@ChrID_Index"));
    assert!(!starts_with(b"@ChrID", b"@ChrID_Index"));
    assert!(!starts_with(b"@ChrID_Strand", b"@ChrID_Index"));
    assert!(starts_with(b"abc", b""));
    assert_eq!(find_byte(b"a.b.c", b'.'), 1);
    assert_eq!(find_byte(b"abc", b'.'), 3);
    assert_eq!(first_of(b"xy"), Some(b'x'));
    assert_eq!(first_of(b""), None);
}
