//! Reply encoder: serializes each reply kind into its wire form, byte for
//! byte. Bulk strings carry a decimal byte-length prefix; integers a signed
//! decimal; statuses and errors a fixed line.

use vstd::prelude::*;
use vstd::string::StringExecFns;
use vstd::utf8::encode_utf8;

verus! {

/// The decimal character for a single digit value.
pub open spec fn digit_char(d: int) -> char
    recommends
        0 <= d < 10,
{
    if d == 0 {
        '0'
    } else if d == 1 {
        '1'
    } else if d == 2 {
        '2'
    } else if d == 3 {
        '3'
    } else if d == 4 {
        '4'
    } else if d == 5 {
        '5'
    } else if d == 6 {
        '6'
    } else if d == 7 {
        '7'
    } else if d == 8 {
        '8'
    } else {
        '9'
    }
}

/// The decimal digit characters of `n`, most significant first, with no
/// leading zeros (`0` itself is the single character `'0'`).
pub open spec fn dec_digits(n: nat) -> Seq<char>
    decreases n,
{
    if n < 10 {
        seq![digit_char(n as int)]
    } else {
        dec_digits(n / 10).push(digit_char((n % 10) as int))
    }
}

/// The decimal rendering of a possibly negative integer: a minus sign before
/// the digits of the magnitude.
pub open spec fn int_digits(i: int) -> Seq<char> {
    if i < 0 {
        seq!['-'] + dec_digits((-i) as nat)
    } else {
        dec_digits(i as nat)
    }
}

/// Bulk-string reply: `$<byte-length>\r\n<data>\r\n`, where the length counts
/// the UTF-8 bytes of the data.
pub open spec fn bulk_reply(s: Seq<char>) -> Seq<char> {
    seq!['$'] + dec_digits(encode_utf8(s).len()) + seq!['\r', '\n'] + s + seq!['\r', '\n']
}

/// Integer reply: `:<signed-decimal>\r\n`.
pub open spec fn integer_reply(i: int) -> Seq<char> {
    seq![':'] + int_digits(i) + seq!['\r', '\n']
}

/// Nil bulk reply, sent when a key is absent.
pub open spec fn nil_reply() -> Seq<char> {
    "$-1\r\n"@
}

/// Status reply for a successful write.
pub open spec fn ok_reply() -> Seq<char> {
    "+OK\r\n"@
}

/// Status reply naming the type of a present key.
pub open spec fn type_string_reply() -> Seq<char> {
    "+string\r\n"@
}

/// Status reply for the type of an absent key.
pub open spec fn type_none_reply() -> Seq<char> {
    "+none\r\n"@
}

/// The one generic error reply: unrecognized command name or wrong arity.
pub open spec fn err_reply() -> Seq<char> {
    "-ERR unknown command\r\n"@
}

/// The one-character string for a decimal digit.
fn digit_str(d: u8) -> (r: &'static str)
    requires
        d < 10,
    ensures
        r@ == seq![digit_char(d as int)],
{
    proof {
        reveal_strlit("0");
        reveal_strlit("1");
        reveal_strlit("2");
        reveal_strlit("3");
        reveal_strlit("4");
        reveal_strlit("5");
        reveal_strlit("6");
        reveal_strlit("7");
        reveal_strlit("8");
        reveal_strlit("9");
    }
    let r = match d {
        0 => "0",
        1 => "1",
        2 => "2",
        3 => "3",
        4 => "4",
        5 => "5",
        6 => "6",
        7 => "7",
        8 => "8",
        _ => "9",
    };
    proof {
        assert(r@ =~= seq![digit_char(d as int)]);
    }
    r
}

/// Renders `n` in decimal, most significant digit first.
pub fn fmt_usize(n: usize) -> (r: String)
    ensures
        r@ == dec_digits(n as nat),
    decreases n,
{
    if n < 10 {
        String::from_str(digit_str(n as u8))
    } else {
        let mut s = fmt_usize(n / 10);
        s.append(digit_str((n % 10) as u8));
        proof {
            assert(s@ =~= dec_digits(n as nat));
        }
        s
    }
}

/// Encodes a bulk-string reply: the `$`-prefixed byte length of the data, a
/// line terminator, the data itself, and a final line terminator.
pub fn resp_bulk_format(actual_data: &str) -> (r: String)
    ensures
        r@ == bulk_reply(actual_data@),
{
    let mut r = String::from_str("$");
    let byte_len = actual_data.as_bytes().len();
    proof {
        assert(byte_len as nat == encode_utf8(actual_data@).len());
    }
    let len_digits = fmt_usize(byte_len);
    r.append(len_digits.as_str());
    r.append("\r\n");
    r.append(actual_data);
    r.append("\r\n");
    proof {
        reveal_strlit("$");
        reveal_strlit("\r\n");
        assert(r@ =~= bulk_reply(actual_data@));
    }
    r
}

/// Encodes an integer reply: a colon, the signed decimal value, and the line
/// terminator.
pub fn integer_format(x: isize) -> (r: String)
    ensures
        r@ == integer_reply(x as int),
{
    let mut r = String::from_str(":");
    if x < 0 {
        r.append("-");
        // Magnitude without overflow, including for the smallest value.
        let mag: usize = ((-(x + 1)) as usize) + 1;
        assert(mag as int == -(x as int));
        let m = fmt_usize(mag);
        r.append(m.as_str());
    } else {
        let m = fmt_usize(x as usize);
        r.append(m.as_str());
    }
    r.append("\r\n");
    proof {
        reveal_strlit(":");
        reveal_strlit("-");
        reveal_strlit("\r\n");
        assert(r@ =~= integer_reply(x as int));
    }
    r
}

/// Encodes the integer reply for an unsigned count.
pub fn count_format(n: usize) -> (r: String)
    ensures
        r@ == integer_reply(n as int),
{
    let mut r = String::from_str(":");
    let m = fmt_usize(n);
    r.append(m.as_str());
    r.append("\r\n");
    proof {
        reveal_strlit(":");
        reveal_strlit("\r\n");
        assert(r@ =~= integer_reply(n as int));
    }
    r
}

} // verus!
