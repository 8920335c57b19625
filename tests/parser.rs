use tal_utils::{ByteReader, Parser, ParserError};

fn reader(text: &str, chunk: usize) -> ByteReader {
    ByteReader::new(text.as_bytes().to_vec(), chunk)
}

#[test]
fn two_integers_with_whitespace_runs() {
    let mut r = reader("  42   7\n", 64);
    assert_eq!(r.get::<i32>().unwrap(), 42);
    assert_eq!(r.get::<i32>().unwrap(), 7);
}

#[test]
fn tokens_span_refills() {
    let mut r = reader("  12345 \t-678\r\n9", 2);
    assert_eq!(r.get::<i64>().unwrap(), 12345);
    assert_eq!(r.get::<i64>().unwrap(), -678);
    assert_eq!(r.get::<u64>().unwrap(), 9);
}

#[test]
fn empty_stream_is_end_of_stream() {
    let mut r = reader("", 8);
    assert!(matches!(r.get::<i32>(), Err(ParserError::Eof)));
}

#[test]
fn whitespace_only_is_end_of_stream() {
    let mut r = reader(" \n\t\r  ", 3);
    assert!(matches!(r.get::<i32>(), Err(ParserError::Eof)));
}

#[test]
fn end_after_last_token() {
    let mut r = reader("5\n", 4);
    assert_eq!(r.get::<usize>().unwrap(), 5);
    assert!(matches!(r.get::<usize>(), Err(ParserError::Eof)));
}

#[test]
fn bad_number_is_parse_error() {
    let mut r = reader("4x2 3", 16);
    assert!(matches!(r.get::<i32>(), Err(ParserError::Parse(_))));
    assert_eq!(r.get::<i32>().unwrap(), 3);
}

#[test]
fn out_of_range_is_parse_error() {
    let mut r = reader("3000000000", 16);
    assert!(matches!(r.get::<i32>(), Err(ParserError::Parse(_))));
}

#[test]
fn invalid_utf8_is_utf8_error() {
    let mut r = ByteReader::new(vec![0xff, 0xfe, b' ', b'1'], 16);
    assert!(matches!(r.get::<String>(), Err(ParserError::Utf8)));
    assert_eq!(r.get::<i32>().unwrap(), 1);
}

#[test]
fn string_token() {
    let mut r = reader("\n hello world", 3);
    assert_eq!(r.get::<String>().unwrap(), "hello");
    assert_eq!(r.get::<String>().unwrap(), "world");
}

#[test]
fn get_vec_reads_exactly_n() {
    let mut r = reader("1 2 3 4", 1);
    assert_eq!(r.get_vec::<i32>(3).unwrap(), vec![1, 2, 3]);
    assert_eq!(r.get::<i32>().unwrap(), 4);
}

#[test]
fn get_vec_propagates_first_failure() {
    let mut r = reader("1 2", 4);
    assert!(matches!(r.get_vec::<i32>(3), Err(ParserError::Eof)));
}

#[test]
fn get_vec_of_zero() {
    let mut r = reader("", 4);
    assert_eq!(r.get_vec::<i32>(0).unwrap(), Vec::<i32>::new());
}

#[test]
fn ascii_token_as_bytes() {
    let mut r = reader("  abc def", 2);
    assert_eq!(r.get_ascii_str().unwrap(), b"abc".to_vec());
    assert_eq!(r.get_token().unwrap(), b"def".to_vec());
}

#[test]
fn ascii_token_rejects_invalid_utf8() {
    let mut r = ByteReader::new(vec![b'a', 0xc3], 2);
    assert!(matches!(r.get_ascii_str(), Err(ParserError::Utf8)));
}

#[test]
fn token_ending_at_end_of_stream() {
    let mut r = reader("42", 8);
    assert_eq!(r.get::<i32>().unwrap(), 42);
    assert!(matches!(r.get::<i32>(), Err(ParserError::Eof)));
}

#[test]
fn vertical_tab_is_part_of_the_token() {
    let mut r = ByteReader::new(vec![0x0b, b'7', b' '], 8);
    assert!(matches!(r.get::<i32>(), Err(ParserError::Parse(_))));
}

#[test]
fn bad_token_is_consumed() {
    let mut r = reader("abc 1\n", 8);
    match r.get::<i32>() {
        Err(ParserError::Parse(e)) => assert_eq!(e, "abc".parse::<i32>().unwrap_err()),
        _ => panic!("expected a parse error"),
    }
    assert_eq!(r.get::<i32>().unwrap(), 1);
}

#[test]
fn chunking_does_not_change_results() {
    for chunk in [1usize, 2, 3, 8, 8192] {
        let mut r = reader("  12345 6\n", chunk);
        assert_eq!(r.get::<i32>().unwrap(), 12345);
        assert_eq!(r.get::<i32>().unwrap(), 6);
        assert!(matches!(r.get::<i32>(), Err(ParserError::Eof)));
    }
}

#[test]
fn get_vec_values_in_order() {
    let mut r = reader("1 2 3\n", 2);
    assert_eq!(r.get_vec::<i32>(3).unwrap(), vec![1, 2, 3]);
    assert!(matches!(r.get::<i32>(), Err(ParserError::Eof)));
}

#[test]
fn get_vec_stops_at_first_failure() {
    let mut r = reader("1 x 3 4", 3);
    assert!(matches!(r.get_vec::<i32>(3), Err(ParserError::Parse(_))));
    assert_eq!(r.get::<i32>().unwrap(), 3);
}

#[test]
fn signs_and_ranges_of_integers() {
    let mut r = reader("+5 -5 -0 +u 18446744073709551615 -1 2147483647 -2147483648", 4);
    assert_eq!(r.get::<i64>().unwrap(), 5);
    assert_eq!(r.get::<i64>().unwrap(), -5);
    assert!(matches!(r.get::<u64>(), Err(ParserError::Parse(_))));
    assert!(matches!(r.get::<i32>(), Err(ParserError::Parse(_))));
    assert_eq!(r.get::<u64>().unwrap(), u64::MAX);
    assert!(matches!(r.get::<usize>(), Err(ParserError::Parse(_))));
    assert_eq!(r.get::<i32>().unwrap(), i32::MAX);
    assert_eq!(r.get::<i32>().unwrap(), i32::MIN);
}

#[test]
fn ascii_token_never_parse_error() {
    let mut r = reader(" ab\n", 1);
    assert_eq!(r.get_ascii_str().unwrap(), b"ab".to_vec());
    assert!(matches!(r.get_ascii_str(), Err(ParserError::Eof)));
}
