//! Protocol decoder: turns one raw input buffer into the ordered token list of
//! a single command frame.
//!
//! Two dialects share the entry points here. The length-prefixed dialect
//! (chosen by the caller when the buffer starts with `*`) carries a decimal
//! element count, then per element a `$`-prefixed decimal byte length and that
//! many raw bytes, each field closed by the two-byte line terminator. The
//! plain-text dialect splits one line into whitespace-separated words and is
//! kept for manual, interactive use only.
//!
//! Decoding never fails with an error: whenever a positional requirement is
//! not met (wrong marker, missing terminator, truncated buffer), the decoder
//! stops and returns the tokens collected so far, so a short or empty token
//! list is the uniform failure signal.

use vstd::prelude::*;
use vstd::slice::slice_subrange;
use vstd::utf8::{decode_utf8, encode_utf8, is_ascii_chars, is_ascii_chars_encode_utf8, valid_utf8};

use crate::laws::{
    crlf_bytes, dec_bytes, element_bytes, elements_bytes, frame_bytes, lemma_dec_bytes_digits,
    lemma_dec_bytes_val, lemma_frame_roundtrip, lemma_parse_digits,
};

verus! {

/// ASCII decimal digit.
pub open spec fn is_digit_byte(b: u8) -> bool {
    48 <= b <= 57
}

/// How many leading bytes of `s` are decimal digits.
pub open spec fn digit_prefix_len(s: Seq<u8>) -> nat
    decreases s.len(),
{
    if s.len() == 0 || !is_digit_byte(s[0]) {
        0
    } else {
        1 + digit_prefix_len(s.drop_first())
    }
}

/// The number denoted by a sequence of digit bytes, most significant first.
pub open spec fn digits_val(d: Seq<u8>) -> nat
    decreases d.len(),
{
    if d.len() == 0 {
        0
    } else {
        digits_val(d.drop_last()) * 10 + (if is_digit_byte(d.last()) {
            (d.last() - 48) as nat
        } else {
            0
        })
    }
}

/// The value of the digit prefix of `s`; zero digits give zero.
pub open spec fn parsed_val(s: Seq<u8>) -> nat {
    digits_val(s.take(digit_prefix_len(s) as int))
}

/// The two-byte line terminator stands at `i`.
pub open spec fn crlf_at(buf: Seq<u8>, i: int) -> bool {
    0 <= i && i + 2 <= buf.len() && buf[i] == 13 && buf[i + 1] == 10
}

/// The digit prefix is maximal: everything before it is a digit, and it ends
/// at the first non-digit or at the end of the sequence.
pub proof fn lemma_digit_prefix(s: Seq<u8>)
    ensures
        digit_prefix_len(s) <= s.len(),
        forall|j: int| 0 <= j < digit_prefix_len(s) ==> is_digit_byte(#[trigger] s[j]),
        digit_prefix_len(s) < s.len() ==> !is_digit_byte(s[digit_prefix_len(s) as int]),
    decreases s.len(),
{
    if s.len() > 0 && is_digit_byte(s[0]) {
        lemma_digit_prefix(s.drop_first());
        assert forall|j: int| 0 <= j < digit_prefix_len(s) implies is_digit_byte(
            #[trigger] s[j],
        ) by {
            if j > 0 {
                assert(s.drop_first()[j - 1] == s[j]);
                assert(is_digit_byte(s.drop_first()[j - 1]));
            }
        }
        if digit_prefix_len(s) < s.len() {
            let d = digit_prefix_len(s) as int;
            assert(s.drop_first()[d - 1] == s[d]);
        }
    }
}

/// Any maximal run of leading digits is the digit prefix.
pub proof fn lemma_digit_prefix_is(s: Seq<u8>, k: int)
    requires
        0 <= k <= s.len(),
        forall|j: int| 0 <= j < k ==> is_digit_byte(#[trigger] s[j]),
        k == s.len() || !is_digit_byte(s[k]),
    ensures
        digit_prefix_len(s) == k,
    decreases s.len(),
{
    if k == 0 {
    } else {
        assert(is_digit_byte(s[0]));
        assert(forall|j: int| 0 <= j < s.len() - 1 ==> #[trigger] s.drop_first()[j] == s[j + 1]);
        lemma_digit_prefix_is(s.drop_first(), k - 1);
    }
}

/// The tokens of the elements of a length-prefixed frame, reading at most `n`
/// elements starting at `i`. Each element must present its `$` marker, a
/// decimal byte length, the line terminator, the announced bytes, and a
/// closing terminator; at the first violation the elements read so far stand.
/// Element bytes that are not valid text are dropped, not reported.
pub open spec fn decode_elems(buf: Seq<u8>, i: int, n: int) -> Seq<Seq<char>>
    decreases n,
{
    if n <= 0 {
        seq![]
    } else if !(0 <= i < buf.len() && buf[i] == 36) {
        seq![]
    } else {
        let dl = digit_prefix_len(buf.skip(i + 1)) as int;
        let len = parsed_val(buf.skip(i + 1)) as int;
        let k = i + 1 + dl;
        if !crlf_at(buf, k) {
            seq![]
        } else {
            let m = k + 2;
            if m + len > buf.len() {
                seq![]
            } else {
                let tok = buf.subrange(m, m + len);
                let head: Seq<Seq<char>> = if valid_utf8(tok) {
                    seq![decode_utf8(tok)]
                } else {
                    seq![]
                };
                if !crlf_at(buf, m + len) {
                    head
                } else {
                    head + decode_elems(buf, m + len + 2, n - 1)
                }
            }
        }
    }
}

/// The token list of one length-prefixed frame: the element count after the
/// leading marker byte, its line terminator, then the elements.
pub open spec fn resp_tokens(buf: Seq<u8>) -> Seq<Seq<char>> {
    if buf.len() == 0 {
        seq![]
    } else {
        let dl = digit_prefix_len(buf.skip(1)) as int;
        let n = parsed_val(buf.skip(1)) as int;
        if !crlf_at(buf, 1 + dl) {
            seq![]
        } else {
            decode_elems(buf, 1 + dl + 2, n)
        }
    }
}

/// Reading more elements than can fit changes nothing: each element takes at
/// least five bytes, so two generous bounds read the same elements.
pub proof fn lemma_decode_elems_capped(buf: Seq<u8>, i: int, n: int, m: int)
    requires
        0 <= i,
        5 * n >= buf.len() - i + 5,
        5 * m >= buf.len() - i + 5,
    ensures
        decode_elems(buf, i, n) == decode_elems(buf, i, m),
    decreases n + m,
{
    if n <= 0 || m <= 0 {
        assert(buf.len() < i + 1);
        assert(decode_elems(buf, i, n) =~= Seq::<Seq<char>>::empty());
        assert(decode_elems(buf, i, m) =~= Seq::<Seq<char>>::empty());
    } else if 0 <= i < buf.len() && buf[i] == 36 {
        let dl = digit_prefix_len(buf.skip(i + 1)) as int;
        let len = parsed_val(buf.skip(i + 1)) as int;
        let k = i + 1 + dl;
        if crlf_at(buf, k) && k + 2 + len <= buf.len() && crlf_at(buf, k + 2 + len) {
            let next = k + 2 + len + 2;
            assert(next >= i + 5);
            lemma_decode_elems_capped(buf, next, n - 1, m - 1);
        }
    }
}

/// Parses the decimal digit prefix of the buffer: consumes consecutive ASCII
/// digits only, stopping at the first non-digit, and returns the parsed
/// magnitude together with the count of digits consumed. Zero digits consumed
/// give magnitude zero. A magnitude too large for the machine word saturates.
pub fn parse_int(buf: &[u8]) -> (r: (usize, usize))
    ensures
        r.1 as nat == digit_prefix_len(buf@),
        parsed_val(buf@) <= usize::MAX ==> r.0 as nat == parsed_val(buf@),
        parsed_val(buf@) > usize::MAX ==> r.0 == usize::MAX,
{
    proof {
        lemma_digit_prefix(buf@);
    }
    let ghost dpl = digit_prefix_len(buf@) as int;
    let mut i: usize = 0;
    let mut out: usize = 0;
    while i < buf.len() && buf[i] >= 48 && buf[i] <= 57
        invariant
            0 <= i <= buf@.len(),
            i <= dpl,
            dpl == digit_prefix_len(buf@),
            dpl <= buf@.len(),
            forall|j: int| 0 <= j < dpl ==> is_digit_byte(#[trigger] buf@[j]),
            dpl < buf@.len() ==> !is_digit_byte(buf@[dpl]),
            digits_val(buf@.take(i as int)) <= usize::MAX ==> out as nat == digits_val(
                buf@.take(i as int),
            ),
            digits_val(buf@.take(i as int)) > usize::MAX ==> out == usize::MAX,
        decreases buf@.len() - i,
    {
        let ghost v = digits_val(buf@.take(i as int));
        let d = (buf[i] - 48) as usize;
        proof {
            assert(buf@.take(i as int + 1).drop_last() =~= buf@.take(i as int));
            assert(buf@.take(i as int + 1).last() == buf@[i as int]);
            assert(digits_val(buf@.take(i as int + 1)) == v * 10 + d);
        }
        out = match out.checked_mul(10) {
            Some(p) => match p.checked_add(d) {
                Some(q) => q,
                None => usize::MAX,
            },
            None => usize::MAX,
        };
        i += 1;
    }
    proof {
        if i < buf@.len() {
            assert(!is_digit_byte(buf@[i as int]));
        }
        lemma_digit_prefix_is(buf@, i as int);
        assert(buf@.take(dpl) =~= buf@.take(i as int));
    }
    (out, i)
}

/// The line terminator stands at `i` in the buffer.
fn crlf_at_exec(buf: &[u8], i: usize) -> (r: bool)
    ensures
        r == crlf_at(buf@, i as int),
{
    if buf.len() < 2 || i > buf.len() - 2 {
        false
    } else {
        buf[i] == 13 && buf[i + 1] == 10
    }
}

/// Relies on `core::str::from_utf8`: succeeds exactly on valid UTF-8 input
/// and yields the characters that the bytes encode.
#[verifier::external_body]
fn bytes_to_string(v: &[u8]) -> (r: Option<String>)
    ensures
        r is Some <==> valid_utf8(v@),
        r matches Some(s) ==> s@ == decode_utf8(v@),
{
    match core::str::from_utf8(v) {
        Ok(s) => Some(s.to_string()),
        Err(_) => None,
    }
}

/// Decodes one length-prefixed frame. The element count after the leading
/// marker byte is trusted; an implausibly large count simply stops early once
/// the buffer is exhausted. On any malformed or truncated input the tokens
/// collected so far are returned; element bytes that are not valid text are
/// dropped.
pub fn resp_tokenize(buf: &[u8]) -> (tokens: Vec<String>)
    ensures
        tokens.deep_view() == resp_tokens(buf@),
{
    let mut out: Vec<String> = Vec::new();
    if buf.len() == 0 {
        return out;
    }
    let rest = slice_subrange(buf, 1, buf.len());
    proof {
        assert(rest@ =~= buf@.skip(1));
    }
    let (count, ndigits) = parse_int(rest);
    proof {
        lemma_digit_prefix(buf@.skip(1));
    }
    let mut i: usize = 1 + ndigits;
    if !crlf_at_exec(buf, i) {
        proof {
            assert(out.deep_view() =~= resp_tokens(buf@));
        }
        return out;
    }
    i += 2;
    let ghost n_true = parsed_val(buf@.skip(1)) as int;
    let ghost i0 = i as int;
    proof {
        if n_true > usize::MAX as int {
            assert(count == usize::MAX);
            lemma_decode_elems_capped(buf@, i0, n_true, count as int);
        }
        assert(resp_tokens(buf@) == decode_elems(buf@, i0, count as int));
        assert(decode_elems(buf@, i0, count as int) =~= out.deep_view() + decode_elems(
            buf@,
            i0,
            count as int,
        ));
    }
    let mut c: usize = 0;
    while c < count
        invariant
            3 <= i0 <= i as int <= buf@.len(),
            c <= count,
            resp_tokens(buf@) == decode_elems(buf@, i0, count as int),
            decode_elems(buf@, i0, count as int) == out.deep_view() + decode_elems(
                buf@,
                i as int,
                count as int - c as int,
            ),
        decreases count as int - c as int,
    {
        let ghost pre_i = i as int;
        let ghost rem = count as int - c as int;
        if !(i < buf.len() && buf[i] == 36) {
            proof {
                assert(decode_elems(buf@, pre_i, rem) =~= Seq::<Seq<char>>::empty());
                assert(out.deep_view() =~= resp_tokens(buf@));
            }
            return out;
        }
        i += 1;
        let sub = slice_subrange(buf, i, buf.len());
        proof {
            assert(sub@ =~= buf@.skip(i as int));
            lemma_digit_prefix(sub@);
        }
        let ghost true_len = parsed_val(buf@.skip(i as int)) as int;
        let (elen, ed) = parse_int(sub);
        i += ed;
        if !crlf_at_exec(buf, i) {
            proof {
                assert(decode_elems(buf@, pre_i, rem) =~= Seq::<Seq<char>>::empty());
                assert(out.deep_view() =~= resp_tokens(buf@));
            }
            return out;
        }
        i += 2;
        if elen > buf.len() - i {
            proof {
                assert(i as int + true_len > buf@.len());
                assert(decode_elems(buf@, pre_i, rem) =~= Seq::<Seq<char>>::empty());
                assert(out.deep_view() =~= resp_tokens(buf@));
            }
            return out;
        }
        proof {
            assert(true_len == elen as int);
        }
        let tok = slice_subrange(buf, i, i + elen);
        let ghost tok_bytes = buf@.subrange(i as int, i as int + elen as int);
        let ghost head: Seq<Seq<char>> = if valid_utf8(tok_bytes) {
            seq![decode_utf8(tok_bytes)]
        } else {
            seq![]
        };
        let ghost out0 = out.deep_view();
        match bytes_to_string(tok) {
            Some(s) => {
                out.push(s);
                proof {
                    assert(out.deep_view() =~= out0 + head);
                }
            },
            None => {
                proof {
                    assert(out.deep_view() =~= out0 + head);
                }
            },
        }
        i += elen;
        if !crlf_at_exec(buf, i) {
            proof {
                assert(decode_elems(buf@, pre_i, rem) =~= head);
                assert(out.deep_view() =~= resp_tokens(buf@));
            }
            return out;
        }
        i += 2;
        c += 1;
        proof {
            assert(decode_elems(buf@, pre_i, rem) =~= head + decode_elems(
                buf@,
                i as int,
                rem - 1,
            ));
            assert(out0 + head + decode_elems(buf@, i as int, rem - 1) =~= out.deep_view()
                + decode_elems(buf@, i as int, rem - 1));
        }
    }
    proof {
        assert(decode_elems(buf@, i as int, 0) =~= Seq::<Seq<char>>::empty());
        assert(out.deep_view() =~= resp_tokens(buf@));
    }
    out
}

/// What the outside line tokenizer returns for a line of text: each token's
/// text, paired with whether it is a word (as opposed to whitespace).
pub uninterp spec fn plain_tokens_of(s: Seq<char>) -> Seq<(bool, Seq<char>)>;

/// What trimming a piece of text returns.
pub uninterp spec fn trim_of(s: Seq<char>) -> Seq<char>;

/// Relies on `str::trim`: removes leading and trailing whitespace, leaving
/// the characters between untouched, so the result of ASCII input stays
/// ASCII and never grows.
#[verifier::external_body]
fn trim_str(s: &str) -> (r: String)
    ensures
        r@ == trim_of(s@),
        is_ascii_chars(s@) ==> is_ascii_chars(r@),
        r@.len() <= s@.len(),
{
    s.trim().to_string()
}

/// Relies on `commands::tokenizer::tokenize`: splits a line into word and
/// whitespace tokens, quotes and escapes grouping words; the result depends
/// on the text alone. A tokenization error yields the empty sequence. ASCII
/// only: the tokenizer slices its input at char offsets, which are byte
/// offsets only for ASCII text.
#[verifier::external_body]
fn plain_tokenize(s: &str) -> (r: Vec<(bool, String)>)
    requires
        is_ascii_chars(s@),
    ensures
        r.deep_view() == plain_tokens_of(s@),
{
    let mut out = Vec::new();
    if let Ok(toks) = commands::tokenizer::tokenize(s) {
        for t in toks.iter() {
            match t.token_type {
                commands::tokenizer::TokenType::Word => out.push((true, t.text.to_string())),
                commands::tokenizer::TokenType::Whitespace => {
                    out.push((false, t.text.to_string()))
                },
            }
        }
    }
    out
}

/// The word tokens of a token list, in order.
pub open spec fn words_of(ts: Seq<(bool, Seq<char>)>) -> Seq<Seq<char>>
    decreases ts.len(),
{
    if ts.len() == 0 {
        seq![]
    } else {
        words_of(ts.drop_last()) + (if ts.last().0 {
            seq![ts.last().1]
        } else {
            seq![]
        })
    }
}

/// The token list of one plain-text line: the trimmed text's word tokens.
/// Buffers that are not valid text, or not ASCII, decode to no tokens.
pub open spec fn netcat_tokens(buf: Seq<u8>) -> Seq<Seq<char>> {
    if !valid_utf8(buf) {
        seq![]
    } else if !is_ascii_chars(decode_utf8(buf)) {
        seq![]
    } else {
        words_of(plain_tokens_of(trim_of(decode_utf8(buf))))
    }
}

/// Decodes one plain-text line into its whitespace-separated words, keeping
/// only word tokens. Non-text input gives no tokens; so does non-ASCII input,
/// which the line tokenizer cannot split safely.
pub fn netcat_tokenize(buf: &[u8]) -> (tokens: Vec<String>)
    ensures
        tokens.deep_view() == netcat_tokens(buf@),
{
    let text = match bytes_to_string(buf) {
        Some(t) => t,
        None => {
            let r: Vec<String> = Vec::new();
            proof {
                assert(r.deep_view() =~= netcat_tokens(buf@));
            }
            return r;
        },
    };
    if !text.as_str().is_ascii() {
        let r: Vec<String> = Vec::new();
        proof {
            assert(r.deep_view() =~= netcat_tokens(buf@));
        }
        return r;
    }
    let trimmed = trim_str(text.as_str());
    let raw = plain_tokenize(trimmed.as_str());
    let ghost ts = raw.deep_view();
    let mut out: Vec<String> = Vec::new();
    let mut idx: usize = 0;
    proof {
        assert(ts.take(0) =~= Seq::<(bool, Seq<char>)>::empty());
    }
    while idx < raw.len()
        invariant
            idx <= raw@.len(),
            ts == raw.deep_view(),
            ts.len() == raw@.len(),
            out.deep_view() == words_of(ts.take(idx as int)),
        decreases raw@.len() - idx,
    {
        let ghost out0 = out.deep_view();
        proof {
            assert(ts.take(idx as int + 1).drop_last() =~= ts.take(idx as int));
            assert(ts.take(idx as int + 1).last() == ts[idx as int]);
        }
        if raw[idx].0 {
            out.push(raw[idx].1.clone());
            proof {
                assert(out.deep_view() =~= out0 + seq![ts[idx as int].1]);
            }
        }
        idx += 1;
    }
    proof {
        assert(ts.take(ts.len() as int) =~= ts);
    }
    out
}

/// The digit parses of the checked inputs, established once.
#[verifier::rlimit(100)]
proof fn parse_int_cases()
    ensures
        digit_prefix_len(encode_utf8("1234\r\n"@)) == 4,
        parsed_val(encode_utf8("1234\r\n"@)) == 1234,
        digit_prefix_len(encode_utf8("0\r\n"@)) == 1,
        parsed_val(encode_utf8("0\r\n"@)) == 0,
        digit_prefix_len(encode_utf8("\r\n"@)) == 0,
        parsed_val(encode_utf8("\r\n"@)) == 0,
        digit_prefix_len(encode_utf8("1\r\n"@)) == 1,
        parsed_val(encode_utf8("1\r\n"@)) == 1,
        digit_prefix_len(encode_utf8("10391\r\n"@)) == 5,
        parsed_val(encode_utf8("10391\r\n"@)) == 10391,
{
    {
        reveal_strlit("1234\r\n");
        let s = "1234\r\n"@;
        assert(is_ascii_chars(s));
        is_ascii_chars_encode_utf8(s);
        lemma_dec_bytes_digits(1234);
        lemma_dec_bytes_val(1234);
        lemma_parse_digits(dec_bytes(1234), crlf_bytes());
        assert(dec_bytes(1) =~= seq![49u8]);
        assert(dec_bytes(12) =~= seq![49u8, 50]);
        assert(dec_bytes(123) =~= seq![49u8, 50, 51]);
        assert(dec_bytes(1234) =~= seq![49u8, 50, 51, 52]);
        assert(encode_utf8(s) =~= dec_bytes(1234) + crlf_bytes());
    }
    {
        reveal_strlit("0\r\n");
        let s = "0\r\n"@;
        assert(is_ascii_chars(s));
        is_ascii_chars_encode_utf8(s);
        lemma_dec_bytes_digits(0);
        lemma_dec_bytes_val(0);
        lemma_parse_digits(dec_bytes(0), crlf_bytes());
        assert(dec_bytes(0) =~= seq![48u8]);
        assert(encode_utf8(s) =~= dec_bytes(0) + crlf_bytes());
    }
    {
        reveal_strlit("\r\n");
        let s = "\r\n"@;
        assert(is_ascii_chars(s));
        is_ascii_chars_encode_utf8(s);
        lemma_parse_digits(Seq::<u8>::empty(), crlf_bytes());
        assert(digits_val(Seq::<u8>::empty()) == 0);
        assert(encode_utf8(s) =~= Seq::<u8>::empty() + crlf_bytes());
    }
    {
        reveal_strlit("1\r\n");
        let s = "1\r\n"@;
        assert(is_ascii_chars(s));
        is_ascii_chars_encode_utf8(s);
        lemma_dec_bytes_digits(1);
        lemma_dec_bytes_val(1);
        lemma_parse_digits(dec_bytes(1), crlf_bytes());
        assert(dec_bytes(1) =~= seq![49u8]);
        assert(encode_utf8(s) =~= dec_bytes(1) + crlf_bytes());
    }
    {
        reveal_strlit("10391\r\n");
        let s = "10391\r\n"@;
        assert(is_ascii_chars(s));
        is_ascii_chars_encode_utf8(s);
        lemma_dec_bytes_digits(10391);
        lemma_dec_bytes_val(10391);
        lemma_parse_digits(dec_bytes(10391), crlf_bytes());
        assert(dec_bytes(1) =~= seq![49u8]);
        assert(dec_bytes(10) =~= seq![49u8, 48]);
        assert(dec_bytes(103) =~= seq![49u8, 48, 51]);
        assert(dec_bytes(1039) =~= seq![49u8, 48, 51, 57]);
        assert(dec_bytes(10391) =~= seq![49u8, 48, 51, 57, 49]);
        assert(encode_utf8(s) =~= dec_bytes(10391) + crlf_bytes());
    }
}

/// The decode of one checked input, established once.
#[verifier::rlimit(100)]
proof fn decoded_frame_ping()
    ensures
        resp_tokens(encode_utf8("*1\r\n$4\r\nPING\r\n"@)) == seq!["PING"@],
{
        reveal_strlit("*1\r\n$4\r\nPING\r\n");
        reveal_strlit("PING");
        let s = "*1\r\n$4\r\nPING\r\n"@;
        let want = seq!["PING"@];
        assert(is_ascii_chars(s));
        assert(is_ascii_chars("PING"@));
        is_ascii_chars_encode_utf8(s);
        is_ascii_chars_encode_utf8("PING"@);
        assert(encode_utf8("PING"@) =~= seq![80u8, 73, 78, 71]);
        assert(dec_bytes(1) =~= seq![49u8]);
        assert(dec_bytes(4) =~= seq![52u8]);
        assert(element_bytes("PING"@) =~= seq![36u8, 52, 13, 10, 80, 73, 78, 71, 13, 10]);
        assert(want.drop_first() =~= Seq::<Seq<char>>::empty());
        assert(elements_bytes(Seq::<Seq<char>>::empty()) =~= Seq::<u8>::empty());
        assert(elements_bytes(want) =~= element_bytes("PING"@));
        assert(frame_bytes(want) =~= seq![42u8, 49, 13, 10] + element_bytes("PING"@));
        assert(encode_utf8(s) =~= frame_bytes(want));
        lemma_frame_roundtrip(want);
}

/// The decode of one checked input, established once.
#[verifier::rlimit(100)]
proof fn decoded_frame_get_apple()
    ensures
        resp_tokens(encode_utf8("*2\r\n$3\r\nGET\r\n$5\r\napple\r\n"@)) == seq!["GET"@, "apple"@],
{
        reveal_strlit("*2\r\n$3\r\nGET\r\n$5\r\napple\r\n");
        reveal_strlit("GET");
        reveal_strlit("apple");
        let s = "*2\r\n$3\r\nGET\r\n$5\r\napple\r\n"@;
        let want = seq!["GET"@, "apple"@];
        assert(is_ascii_chars(s));
        assert(is_ascii_chars("GET"@));
        assert(is_ascii_chars("apple"@));
        is_ascii_chars_encode_utf8(s);
        is_ascii_chars_encode_utf8("GET"@);
        is_ascii_chars_encode_utf8("apple"@);
        assert(encode_utf8("GET"@) =~= seq![71u8, 69, 84]);
        assert(encode_utf8("apple"@) =~= seq![97u8, 112, 112, 108, 101]);
        assert(dec_bytes(2) =~= seq![50u8]);
        assert(dec_bytes(3) =~= seq![51u8]);
        assert(dec_bytes(5) =~= seq![53u8]);
        assert(element_bytes("GET"@) =~= seq![36u8, 51, 13, 10, 71, 69, 84, 13, 10]);
        assert(element_bytes("apple"@) =~= seq![36u8, 53, 13, 10, 97, 112, 112, 108, 101, 13, 10]);
        assert(want.drop_first() =~= seq!["apple"@]);
        assert(seq!["apple"@].drop_first() =~= Seq::<Seq<char>>::empty());
        assert(elements_bytes(Seq::<Seq<char>>::empty()) =~= Seq::<u8>::empty());
        assert(elements_bytes(seq!["apple"@]) =~= element_bytes("apple"@));
        assert(elements_bytes(want) =~= element_bytes("GET"@) + element_bytes("apple"@));
        assert(frame_bytes(want) =~= seq![42u8, 50, 13, 10] + element_bytes("GET"@)
            + element_bytes("apple"@));
        assert(encode_utf8(s) =~= frame_bytes(want));
        lemma_frame_roundtrip(want);
}

/// The decode of one checked input, established once.
#[verifier::rlimit(100)]
proof fn decoded_frame_set_xx_apple()
    ensures
        resp_tokens(encode_utf8("*3\r\n$3\r\nSET\r\n$2\r\nXX\r\n$5\r\napple\r\n"@)) == seq!["SET"@, "XX"@, "apple"@],
{
        reveal_strlit("*3\r\n$3\r\nSET\r\n$2\r\nXX\r\n$5\r\napple\r\n");
        reveal_strlit("SET");
        reveal_strlit("XX");
        reveal_strlit("apple");
        let s = "*3\r\n$3\r\nSET\r\n$2\r\nXX\r\n$5\r\napple\r\n"@;
        let want = seq!["SET"@, "XX"@, "apple"@];
        assert(is_ascii_chars(s));
        assert(is_ascii_chars("SET"@));
        assert(is_ascii_chars("XX"@));
        assert(is_ascii_chars("apple"@));
        is_ascii_chars_encode_utf8(s);
        is_ascii_chars_encode_utf8("SET"@);
        is_ascii_chars_encode_utf8("XX"@);
        is_ascii_chars_encode_utf8("apple"@);
        assert(encode_utf8("SET"@) =~= seq![83u8, 69, 84]);
        assert(encode_utf8("XX"@) =~= seq![88u8, 88]);
        assert(encode_utf8("apple"@) =~= seq![97u8, 112, 112, 108, 101]);
        assert(dec_bytes(2) =~= seq![50u8]);
        assert(dec_bytes(3) =~= seq![51u8]);
        assert(dec_bytes(5) =~= seq![53u8]);
        assert(element_bytes("SET"@) =~= seq![36u8, 51, 13, 10, 83, 69, 84, 13, 10]);
        assert(element_bytes("XX"@) =~= seq![36u8, 50, 13, 10, 88, 88, 13, 10]);
        assert(element_bytes("apple"@) =~= seq![36u8, 53, 13, 10, 97, 112, 112, 108, 101, 13, 10]);
        assert(want.drop_first() =~= seq!["XX"@, "apple"@]);
        assert(seq!["XX"@, "apple"@].drop_first() =~= seq!["apple"@]);
        assert(seq!["apple"@].drop_first() =~= Seq::<Seq<char>>::empty());
        assert(elements_bytes(Seq::<Seq<char>>::empty()) =~= Seq::<u8>::empty());
        assert(elements_bytes(seq!["apple"@]) =~= element_bytes("apple"@));
        assert(elements_bytes(seq!["XX"@, "apple"@]) =~= element_bytes("XX"@) + element_bytes(
            "apple"@,
        ));
        assert(elements_bytes(want) =~= element_bytes("SET"@) + element_bytes("XX"@)
            + element_bytes("apple"@));
        assert(frame_bytes(want) =~= seq![42u8, 51, 13, 10] + element_bytes("SET"@)
            + element_bytes("XX"@) + element_bytes("apple"@));
        assert(encode_utf8(s) =~= frame_bytes(want));
        lemma_frame_roundtrip(want);
}

/// The decode of one checked input, established once.
#[verifier::rlimit(100)]
proof fn decoded_frame_del_keys()
    ensures
        resp_tokens(encode_utf8("*4\r\n$3\r\nDEL\r\n$2\r\nXX\r\n$1\r\nY\r\n$3\r\nABC\r\n"@)) == seq!["DEL"@, "XX"@, "Y"@, "ABC"@],
{
        reveal_strlit("*4\r\n$3\r\nDEL\r\n$2\r\nXX\r\n$1\r\nY\r\n$3\r\nABC\r\n");
        reveal_strlit("DEL");
        reveal_strlit("XX");
        reveal_strlit("Y");
        reveal_strlit("ABC");
        let s = "*4\r\n$3\r\nDEL\r\n$2\r\nXX\r\n$1\r\nY\r\n$3\r\nABC\r\n"@;
        let want = seq!["DEL"@, "XX"@, "Y"@, "ABC"@];
        assert(is_ascii_chars(s));
        assert(is_ascii_chars("DEL"@));
        assert(is_ascii_chars("XX"@));
        assert(is_ascii_chars("Y"@));
        assert(is_ascii_chars("ABC"@));
        is_ascii_chars_encode_utf8(s);
        is_ascii_chars_encode_utf8("DEL"@);
        is_ascii_chars_encode_utf8("XX"@);
        is_ascii_chars_encode_utf8("Y"@);
        is_ascii_chars_encode_utf8("ABC"@);
        assert(encode_utf8("DEL"@) =~= seq![68u8, 69, 76]);
        assert(encode_utf8("XX"@) =~= seq![88u8, 88]);
        assert(encode_utf8("Y"@) =~= seq![89u8]);
        assert(encode_utf8("ABC"@) =~= seq![65u8, 66, 67]);
        assert(dec_bytes(1) =~= seq![49u8]);
        assert(dec_bytes(2) =~= seq![50u8]);
        assert(dec_bytes(3) =~= seq![51u8]);
        assert(dec_bytes(4) =~= seq![52u8]);
        assert(element_bytes("DEL"@) =~= seq![36u8, 51, 13, 10, 68, 69, 76, 13, 10]);
        assert(element_bytes("XX"@) =~= seq![36u8, 50, 13, 10, 88, 88, 13, 10]);
        assert(element_bytes("Y"@) =~= seq![36u8, 49, 13, 10, 89, 13, 10]);
        assert(element_bytes("ABC"@) =~= seq![36u8, 51, 13, 10, 65, 66, 67, 13, 10]);
        assert(want.drop_first() =~= seq!["XX"@, "Y"@, "ABC"@]);
        assert(seq!["XX"@, "Y"@, "ABC"@].drop_first() =~= seq!["Y"@, "ABC"@]);
        assert(seq!["Y"@, "ABC"@].drop_first() =~= seq!["ABC"@]);
        assert(seq!["ABC"@].drop_first() =~= Seq::<Seq<char>>::empty());
        assert(elements_bytes(Seq::<Seq<char>>::empty()) =~= Seq::<u8>::empty());
        assert(elements_bytes(seq!["ABC"@]) =~= element_bytes("ABC"@));
        assert(elements_bytes(seq!["Y"@, "ABC"@]) =~= element_bytes("Y"@) + element_bytes("ABC"@));
        assert(elements_bytes(seq!["XX"@, "Y"@, "ABC"@]) =~= element_bytes("XX"@) + element_bytes(
            "Y"@,
        ) + element_bytes("ABC"@));
        assert(elements_bytes(want) =~= element_bytes("DEL"@) + element_bytes("XX"@)
            + element_bytes("Y"@) + element_bytes("ABC"@));
        assert(frame_bytes(want) =~= seq![42u8, 52, 13, 10] + element_bytes("DEL"@)
            + element_bytes("XX"@) + element_bytes("Y"@) + element_bytes("ABC"@));
        assert(encode_utf8(s) =~= frame_bytes(want));
        lemma_frame_roundtrip(want);
}

/// The decode of one checked input, established once.
#[verifier::rlimit(100)]
proof fn decoded_frame_long_pair()
    ensures
        resp_tokens(encode_utf8("*2\r\n$10\r\nGETTTTTTAB\r\n$11\r\naaaaaaaaaxy\r\n"@)) == seq!["GETTTTTTAB"@, "aaaaaaaaaxy"@],
{
        reveal_strlit("*2\r\n$10\r\nGETTTTTTAB\r\n$11\r\naaaaaaaaaxy\r\n");
        reveal_strlit("GETTTTTTAB");
        reveal_strlit("aaaaaaaaaxy");
        let s = "*2\r\n$10\r\nGETTTTTTAB\r\n$11\r\naaaaaaaaaxy\r\n"@;
        let want = seq!["GETTTTTTAB"@, "aaaaaaaaaxy"@];
        assert(is_ascii_chars(s));
        assert(is_ascii_chars("GETTTTTTAB"@));
        assert(is_ascii_chars("aaaaaaaaaxy"@));
        is_ascii_chars_encode_utf8(s);
        is_ascii_chars_encode_utf8("GETTTTTTAB"@);
        is_ascii_chars_encode_utf8("aaaaaaaaaxy"@);
        assert(encode_utf8("GETTTTTTAB"@) =~= seq![71u8, 69, 84, 84, 84, 84, 84, 84, 65, 66]);
        assert(encode_utf8("aaaaaaaaaxy"@) =~= seq![97u8, 97, 97, 97, 97, 97, 97, 97, 97, 120, 121]);
        assert(dec_bytes(1) =~= seq![49u8]);
        assert(dec_bytes(2) =~= seq![50u8]);
        assert(dec_bytes(10) =~= seq![49u8, 48]);
        assert(dec_bytes(11) =~= seq![49u8, 49]);
        assert(element_bytes("GETTTTTTAB"@) =~= seq![36u8, 49, 48, 13, 10, 71, 69, 84, 84, 84, 84, 84, 84, 65, 66, 13, 10]);
        assert(element_bytes("aaaaaaaaaxy"@) =~= seq![36u8, 49, 49, 13, 10, 97, 97, 97, 97, 97, 97, 97, 97, 97, 120, 121, 13, 10]);
        assert(want.drop_first() =~= seq!["aaaaaaaaaxy"@]);
        assert(seq!["aaaaaaaaaxy"@].drop_first() =~= Seq::<Seq<char>>::empty());
        assert(elements_bytes(Seq::<Seq<char>>::empty()) =~= Seq::<u8>::empty());
        assert(elements_bytes(seq!["aaaaaaaaaxy"@]) =~= element_bytes("aaaaaaaaaxy"@));
        assert(elements_bytes(want) =~= element_bytes("GETTTTTTAB"@) + element_bytes(
            "aaaaaaaaaxy"@,
        ));
        assert(frame_bytes(want) =~= seq![42u8, 50, 13, 10] + element_bytes("GETTTTTTAB"@)
            + element_bytes("aaaaaaaaaxy"@));
        assert(encode_utf8(s) =~= frame_bytes(want));
        lemma_frame_roundtrip(want);
}

/// Checks the decoder on known inputs. Each check is proved rather than run:
/// the assertions hold at verification time, so the call does nothing.
pub fn test() {
    proof {
        parse_int_cases();
    }
    let r1 = parse_int("1234\r\n".as_bytes());
    assert(r1.0 == 1234 && r1.1 == 4);
    let r2 = parse_int("0\r\n".as_bytes());
    assert(r2.0 == 0 && r2.1 == 1);
    let r3 = parse_int("\r\n".as_bytes());
    assert(r3.0 == 0 && r3.1 == 0);
    let r4 = parse_int("1\r\n".as_bytes());
    assert(r4.0 == 1 && r4.1 == 1);
    let r5 = parse_int("10391\r\n".as_bytes());
    assert(r5.0 == 10391 && r5.1 == 5);
    let t1 = resp_tokenize("*1\r\n$4\r\nPING\r\n".as_bytes());
    proof {
        decoded_frame_ping();
        assert(t1.deep_view() =~= seq!["PING"@]);
    }
    let t2 = resp_tokenize("*2\r\n$3\r\nGET\r\n$5\r\napple\r\n".as_bytes());
    proof {
        decoded_frame_get_apple();
        assert(t2.deep_view() =~= seq!["GET"@, "apple"@]);
    }
    let t3 = resp_tokenize("*3\r\n$3\r\nSET\r\n$2\r\nXX\r\n$5\r\napple\r\n".as_bytes());
    proof {
        decoded_frame_set_xx_apple();
        assert(t3.deep_view() =~= seq!["SET"@, "XX"@, "apple"@]);
    }
    let t4 = resp_tokenize("*4\r\n$3\r\nDEL\r\n$2\r\nXX\r\n$1\r\nY\r\n$3\r\nABC\r\n".as_bytes());
    proof {
        decoded_frame_del_keys();
        assert(t4.deep_view() =~= seq!["DEL"@, "XX"@, "Y"@, "ABC"@]);
    }
    let t5 = resp_tokenize("*2\r\n$10\r\nGETTTTTTAB\r\n$11\r\naaaaaaaaaxy\r\n".as_bytes());
    proof {
        decoded_frame_long_pair();
        assert(t5.deep_view() =~= seq!["GETTTTTTAB"@, "aaaaaaaaaxy"@]);
    }
}

} // verus!
