use respkv::tokenize::{netcat_tokenize, parse_int, resp_tokenize};

fn strings(words: &[&str]) -> Vec<String> {
    words.iter().map(|w| w.to_string()).collect()
}

#[test]
fn parse_int_reads_digit_prefix() {
    assert_eq!(parse_int(b"1234\r\n"), (1234, 4));
    assert_eq!(parse_int(b"\r\n"), (0, 0));
    assert_eq!(parse_int(b"0\r\n"), (0, 1));
    assert_eq!(parse_int(b"1\r\n"), (1, 1));
    assert_eq!(parse_int(b"10391\r\n"), (10391, 5));
}

#[test]
fn parse_int_empty_and_all_digits() {
    assert_eq!(parse_int(b""), (0, 0));
    assert_eq!(parse_int(b"007"), (7, 3));
    assert_eq!(parse_int(b"x12"), (0, 0));
}

#[test]
fn parse_int_saturates_on_huge_magnitude() {
    assert_eq!(parse_int(b"99999999999999999999999999\r\n"), (usize::MAX, 26));
}

#[test]
fn decode_single_token_frame() {
    assert_eq!(resp_tokenize(b"*1\r\n$4\r\nPING\r\n"), strings(&["PING"]));
}

#[test]
fn decode_two_token_frame() {
    assert_eq!(
        resp_tokenize(b"*2\r\n$3\r\nGET\r\n$5\r\napple\r\n"),
        strings(&["GET", "apple"])
    );
}

#[test]
fn decode_three_token_frame() {
    assert_eq!(
        resp_tokenize(b"*3\r\n$3\r\nSET\r\n$2\r\nXX\r\n$5\r\napple\r\n"),
        strings(&["SET", "XX", "apple"])
    );
}

#[test]
fn decode_four_token_frame() {
    assert_eq!(
        resp_tokenize(b"*4\r\n$3\r\nDEL\r\n$2\r\nXX\r\n$1\r\nY\r\n$3\r\nABC\r\n"),
        strings(&["DEL", "XX", "Y", "ABC"])
    );
}

#[test]
fn decode_long_tokens() {
    assert_eq!(
        resp_tokenize(b"*2\r\n$10\r\nGETTTTTTAB\r\n$11\r\naaaaaaaaaxy\r\n"),
        strings(&["GETTTTTTAB", "aaaaaaaaaxy"])
    );
}

#[test]
fn decode_truncated_frame_returns_partial() {
    // Second element announced but missing: only the first token comes back.
    assert_eq!(resp_tokenize(b"*2\r\n$3\r\nGET\r\n"), strings(&["GET"]));
    // Element bytes shorter than announced: nothing collected yet.
    assert_eq!(resp_tokenize(b"*1\r\n$10\r\nab\r\n"), Vec::<String>::new());
}

#[test]
fn decode_missing_trailing_terminator_keeps_token() {
    // The token is pushed before the trailing terminator is required.
    assert_eq!(resp_tokenize(b"*2\r\n$3\r\nGETxy"), strings(&["GET"]));
}

#[test]
fn decode_wrong_marker_aborts() {
    assert_eq!(resp_tokenize(b"*1\r\n#4\r\nPING\r\n"), Vec::<String>::new());
    assert_eq!(resp_tokenize(b"*\r\n"), Vec::<String>::new());
    assert_eq!(resp_tokenize(b""), Vec::<String>::new());
    assert_eq!(resp_tokenize(b"*2"), Vec::<String>::new());
}

#[test]
fn decode_drops_non_text_token() {
    assert_eq!(
        resp_tokenize(b"*2\r\n$2\r\n\xff\xfe\r\n$2\r\nok\r\n"),
        strings(&["ok"])
    );
}

#[test]
fn decode_zero_count_frame_is_empty() {
    assert_eq!(resp_tokenize(b"*0\r\n"), Vec::<String>::new());
}

#[test]
fn netcat_splits_whitespace_words() {
    assert_eq!(netcat_tokenize(b"GET a\r\n"), strings(&["GET", "a"]));
    assert_eq!(
        netcat_tokenize(b"  SET   key   value  \r\n"),
        strings(&["SET", "key", "value"])
    );
}

#[test]
fn netcat_empty_and_invalid_input() {
    assert_eq!(netcat_tokenize(b""), Vec::<String>::new());
    assert_eq!(netcat_tokenize(b"\xff\xfe"), Vec::<String>::new());
    // Valid UTF-8 but not ASCII: the line tokenizer cannot split it safely.
    assert_eq!(
        netcat_tokenize("GET caf\u{e9}".as_bytes()),
        Vec::<String>::new()
    );
}

#[test]
fn netcat_keeps_quoted_text_as_one_word() {
    assert_eq!(
        netcat_tokenize(b"SET k \"a b\"\r\n"),
        strings(&["SET", "k", "\"a b\""])
    );
}

#[test]
fn netcat_trims_before_tokenizing() {
    // Untrimmed, the backslash escapes the following space and a word token
    // survives; trimmed, the line ends in a bare backslash, a tokenization
    // error, so no tokens come back.
    assert_eq!(netcat_tokenize(b"a\\ "), Vec::<String>::new());
}

#[test]
fn netcat_tokenizer_error_gives_no_tokens() {
    // An unclosed double quote is a tokenization error.
    assert_eq!(netcat_tokenize(b"GET \"k"), Vec::<String>::new());
}

#[test]
fn decoder_self_checks_pass() {
    respkv::tokenize::test();
}
