use respkv::formatter::{count_format, fmt_usize, integer_format, resp_bulk_format};

#[test]
fn bulk_format_prefixes_byte_length() {
    assert_eq!(resp_bulk_format("apple"), "$5\r\napple\r\n");
    assert_eq!(resp_bulk_format(""), "$0\r\n\r\n");
    assert_eq!(resp_bulk_format("a b\r\nc"), "$6\r\na b\r\nc\r\n");
}

#[test]
fn bulk_format_counts_bytes_not_chars() {
    // A two-byte character counts as two.
    assert_eq!(resp_bulk_format("\u{e9}"), "$2\r\n\u{e9}\r\n");
}

#[test]
fn integer_format_signed_decimal() {
    assert_eq!(integer_format(0), ":0\r\n");
    assert_eq!(integer_format(1), ":1\r\n");
    assert_eq!(integer_format(42), ":42\r\n");
    assert_eq!(integer_format(-7), ":-7\r\n");
    assert_eq!(integer_format(isize::MIN), format!(":{}\r\n", isize::MIN));
}

#[test]
fn count_format_unsigned_decimal() {
    assert_eq!(count_format(0), ":0\r\n");
    assert_eq!(count_format(10391), ":10391\r\n");
    assert_eq!(count_format(usize::MAX), format!(":{}\r\n", usize::MAX));
}

#[test]
fn fmt_usize_plain_decimal() {
    assert_eq!(fmt_usize(0), "0");
    assert_eq!(fmt_usize(9), "9");
    assert_eq!(fmt_usize(10), "10");
    assert_eq!(fmt_usize(120304), "120304");
}
