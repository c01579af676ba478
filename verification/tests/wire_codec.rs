use respkv::bytes::{matches_word, parse_u64, render, text};
use respkv::parse::{
    array, blob, bulk_string, first_line, integer, pairs, read_blob, simple_string, tokenize,
    FrameError,
};

fn b(s: &str) -> Vec<u8> {
    s.as_bytes().to_vec()
}

#[test]
fn bulk_string_frames_payload() {
    assert_eq!(bulk_string(Some(b"bar".as_slice())), b("$3\r\nbar\r\n"));
}

#[test]
fn bulk_string_absent_is_minus_one() {
    assert_eq!(bulk_string(None), b("$-1\r\n"));
}

#[test]
fn bulk_string_empty_payload() {
    assert_eq!(bulk_string(Some(b"".as_slice())), b("$0\r\n\r\n"));
}

#[test]
fn bulk_string_counts_bytes_of_long_payload() {
    let payload = vec![b'x'; 123];
    let mut expected = b("$123\r\n");
    expected.extend_from_slice(&payload);
    expected.extend_from_slice(b"\r\n");
    assert_eq!(bulk_string(Some(payload.as_slice())), expected);
}

#[test]
fn bulk_string_keeps_line_breaks_in_payload() {
    assert_eq!(bulk_string(Some(b"a\r\nb".as_slice())), b("$4\r\na\r\nb\r\n"));
}

#[test]
fn array_of_three_items() {
    let items: Vec<&[u8]> = vec![b"SET", b"foo", b"bar"];
    assert_eq!(array(&items), b("*3\r\n$3\r\nSET\r\n$3\r\nfoo\r\n$3\r\nbar\r\n"));
}

#[test]
fn array_without_items() {
    let items: Vec<&[u8]> = vec![];
    assert_eq!(array(&items), b("*0\r\n"));
}

#[test]
fn array_of_eleven_items_has_two_digit_length() {
    let items: Vec<&[u8]> = vec![b"a"; 11];
    let out = array(&items);
    assert!(out.starts_with(b"*11\r\n"));
    assert_eq!(out.len(), 5 + 11 * 7);
}

#[test]
fn pairs_renders_lines_in_one_bulk_string() {
    let entries = vec![(b("role"), b("master")), (b("n"), b("1"))];
    assert_eq!(pairs(&entries), b("$18\r\nrole:master\r\nn:1\r\n\r\n"));
}

#[test]
fn pairs_of_nothing_is_empty_bulk_string() {
    assert_eq!(pairs(&Vec::new()), b("$0\r\n\r\n"));
}

#[test]
fn simple_string_frames_text() {
    assert_eq!(simple_string(b"PONG"), b("+PONG\r\n"));
}

#[test]
fn integer_frames_decimal() {
    assert_eq!(integer(0), b(":0\r\n"));
    assert_eq!(integer(42), b(":42\r\n"));
    assert_eq!(integer(u64::MAX), b(":18446744073709551615\r\n"));
}

#[test]
fn blob_has_no_trailing_line_break() {
    assert_eq!(blob(b"abc"), b("$3\r\nabc"));
    assert_eq!(blob(b""), b("$0\r\n"));
}

#[test]
fn tokenize_reads_ping() {
    assert_eq!(tokenize(b"*1\r\n$4\r\nPING\r\n"), Ok(Some((vec![b("PING")], 14))));
}

#[test]
fn tokenize_empty_input_is_clean_end() {
    assert_eq!(tokenize(b""), Ok(None));
}

#[test]
fn tokenize_array_of_length_zero() {
    assert_eq!(tokenize(b"*0\r\n"), Ok(Some((vec![], 4))));
}

#[test]
fn tokenize_leaves_following_bytes_alone() {
    let input = b"*2\r\n$3\r\nGET\r\n$3\r\nfoo\r\n*1\r\n$4\r\nPING\r\n";
    assert_eq!(tokenize(input), Ok(Some((vec![b("GET"), b("foo")], 22))));
    assert_eq!(tokenize(&input[22..]), Ok(Some((vec![b("PING")], 14))));
}

#[test]
fn tokenize_takes_payload_by_length_not_by_line() {
    assert_eq!(
        tokenize(b"*1\r\n$4\r\na\r\nb\r\n"),
        Ok(Some((vec![b("a\r\nb")], 14)))
    );
}

#[test]
fn tokenize_empty_bulk_string() {
    assert_eq!(tokenize(b"*1\r\n$0\r\n\r\n"), Ok(Some((vec![b("")], 10))));
}

#[test]
fn tokenize_accepts_plus_sign_in_length() {
    assert_eq!(tokenize(b"*+1\r\n$+1\r\nx\r\n"), Ok(Some((vec![b("x")], 13))));
}

#[test]
fn tokenize_first_byte_not_star() {
    assert_eq!(tokenize(b"PING\r\n"), Err(FrameError::NotArray));
    assert_eq!(tokenize(b"$4\r\nPING\r\n"), Err(FrameError::NotArray));
}

#[test]
fn tokenize_non_numeric_length() {
    assert_eq!(tokenize(b"*x\r\n"), Err(FrameError::NonNumericLength));
    assert_eq!(tokenize(b"*\r\n"), Err(FrameError::NonNumericLength));
    assert_eq!(tokenize(b"*-1\r\n"), Err(FrameError::NonNumericLength));
    assert_eq!(tokenize(b"*1\r\n$x\r\nabc\r\n"), Err(FrameError::NonNumericLength));
    assert_eq!(tokenize(b"*1\r\n$-1\r\n"), Err(FrameError::NonNumericLength));
    assert_eq!(
        tokenize(b"*99999999999999999999999\r\n"),
        Err(FrameError::NonNumericLength)
    );
}

#[test]
fn tokenize_malformed_header() {
    assert_eq!(tokenize(b"*1\n$4\r\nPING\r\n"), Err(FrameError::MalformedHeader));
    assert_eq!(tokenize(b"*\n"), Err(FrameError::MalformedHeader));
    assert_eq!(tokenize(b"*1\r\n+PING\r\n"), Err(FrameError::MalformedHeader));
    assert_eq!(tokenize(b"*1\r\n$4\r\nPINGxx"), Err(FrameError::MalformedHeader));
    assert_eq!(tokenize(b"*2\r\n$4\r\nECHO\r\n*1\r\n"), Err(FrameError::MalformedHeader));
}

#[test]
fn tokenize_unexpected_end() {
    assert_eq!(tokenize(b"*"), Err(FrameError::UnexpectedEof));
    assert_eq!(tokenize(b"*1"), Err(FrameError::UnexpectedEof));
    assert_eq!(tokenize(b"*1\r\n"), Err(FrameError::UnexpectedEof));
    assert_eq!(tokenize(b"*1\r\n$4"), Err(FrameError::UnexpectedEof));
    assert_eq!(tokenize(b"*1\r\n$4\r\nPI"), Err(FrameError::UnexpectedEof));
    assert_eq!(tokenize(b"*1\r\n$4\r\nPING\r"), Err(FrameError::UnexpectedEof));
    assert_eq!(tokenize(b"*2\r\n$4\r\nECHO\r\n"), Err(FrameError::UnexpectedEof));
}

#[test]
fn tokenize_round_trips_array() {
    let items: Vec<&[u8]> = vec![b"SET", b"k\r\n", b"", b"\x00\xff"];
    let mut encoded = array(&items);
    let frame_len = encoded.len();
    encoded.extend_from_slice(b"trailing");
    let expected: Vec<Vec<u8>> = items.iter().map(|i| i.to_vec()).collect();
    assert_eq!(tokenize(&encoded), Ok(Some((expected, frame_len))));
}

#[test]
fn first_line_is_taken_with_its_line_feed() {
    assert_eq!(first_line(b"+PONG\r\nrest"), Some(b"+PONG\r\n".as_slice()));
    assert_eq!(first_line(b"\n"), Some(b"\n".as_slice()));
    assert_eq!(first_line(b"+PONG\r"), None);
    assert_eq!(first_line(b""), None);
}

#[test]
fn read_blob_takes_exactly_its_length() {
    assert_eq!(read_blob(b"$3\r\nabc*1\r\n"), Ok((b("abc"), 7)));
    assert_eq!(read_blob(b"$0\r\n"), Ok((b(""), 4)));
}

#[test]
fn read_blob_errors() {
    assert_eq!(read_blob(b""), Err(FrameError::UnexpectedEof));
    assert_eq!(read_blob(b"$3\r\nab"), Err(FrameError::UnexpectedEof));
    assert_eq!(read_blob(b"$3"), Err(FrameError::UnexpectedEof));
    assert_eq!(read_blob(b"*3\r\nabc"), Err(FrameError::MalformedHeader));
    assert_eq!(read_blob(b"$3\nabc"), Err(FrameError::MalformedHeader));
    assert_eq!(read_blob(b"$z\r\nabc"), Err(FrameError::NonNumericLength));
}

#[test]
fn read_blob_round_trips_blob() {
    let payload = vec![7u8; 300];
    let mut encoded = blob(&payload);
    let used = encoded.len();
    encoded.extend_from_slice(b"*1\r\n");
    assert_eq!(read_blob(&encoded), Ok((payload, used)));
}

#[test]
fn render_decimal_text() {
    assert_eq!(render(0), b("0"));
    assert_eq!(render(7), b("7"));
    assert_eq!(render(10), b("10"));
    assert_eq!(render(1234567890), b("1234567890"));
    assert_eq!(render(u64::MAX), b("18446744073709551615"));
}

#[test]
fn parse_u64_reads_numbers() {
    assert_eq!(parse_u64(b"0"), Some(0));
    assert_eq!(parse_u64(b"100"), Some(100));
    assert_eq!(parse_u64(b"007"), Some(7));
    assert_eq!(parse_u64(b"+5"), Some(5));
    assert_eq!(parse_u64(b"18446744073709551615"), Some(u64::MAX));
}

#[test]
fn parse_u64_rejects_what_is_no_number() {
    assert_eq!(parse_u64(b""), None);
    assert_eq!(parse_u64(b"+"), None);
    assert_eq!(parse_u64(b"-1"), None);
    assert_eq!(parse_u64(b"1a"), None);
    assert_eq!(parse_u64(b" 1"), None);
    assert_eq!(parse_u64(b"++1"), None);
    assert_eq!(parse_u64(b"18446744073709551616"), None);
    assert_eq!(parse_u64(b"99999999999999999999"), None);
}

#[test]
fn parse_u64_reads_back_what_render_wrote() {
    for n in [0u64, 1, 9, 10, 99, 100, 65535, 4294967296, u64::MAX] {
        assert_eq!(parse_u64(&render(n)), Some(n));
    }
}

#[test]
fn matches_word_ignores_ascii_letter_case() {
    assert!(matches_word(b"PING", "ping"));
    assert!(matches_word(b"pInG", "ping"));
    assert!(matches_word(b"+PONG\r\n", "+pong\r\n"));
    assert!(!matches_word(b"PINGS", "ping"));
    assert!(!matches_word(b"PIN", "ping"));
    assert!(!matches_word(b"P\xc4\xb0NG", "ping"));
    assert!(!matches_word(b"", "ping"));
}

#[test]
fn text_copies_ascii() {
    assert_eq!(text("+OK\r\n"), b("+OK\r\n"));
    assert_eq!(text(""), b(""));
}
