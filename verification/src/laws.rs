//! The laws of the library, stated over the same spec functions that the
//! executable functions' contracts use, and proved once and for all inputs:
//! frame encoding round-trips through the decoder; each command's reply and
//! store effect compose as the command table promises; and a sequence of
//! writes leaves, per key, exactly the last written value.

use vstd::prelude::*;
use vstd::utf8::{encode_utf8, encode_utf8_decode_utf8, encode_utf8_valid_utf8};

use crate::formatter::{
    err_reply, int_digits, integer_reply, nil_reply, type_none_reply, type_string_reply,
};
use crate::req_handler::{is_del, is_get, is_set, is_setnx, recognized, reply_spec, store_after};
use crate::store::{del_count, map_after_del};
use crate::tokenize::{
    decode_elems, digit_prefix_len, digits_val, is_digit_byte, parsed_val, resp_tokens,
};

verus! {

/// The decimal digit bytes of `n`, most significant first, no leading zeros.
pub open spec fn dec_bytes(n: nat) -> Seq<u8>
    decreases n,
{
    if n < 10 {
        seq![(48 + n) as u8]
    } else {
        dec_bytes(n / 10).push((48 + n % 10) as u8)
    }
}

/// The two bytes of the line terminator.
pub open spec fn crlf_bytes() -> Seq<u8> {
    seq![13u8, 10u8]
}

/// The wire encoding of one frame element: the `$` marker, the decimal byte
/// length of the token, a line terminator, the token's bytes, a terminator.
pub open spec fn element_bytes(tok: Seq<char>) -> Seq<u8> {
    seq![36u8] + dec_bytes(encode_utf8(tok).len()) + crlf_bytes() + encode_utf8(tok) + crlf_bytes()
}

/// The wire encodings of the elements, in order.
pub open spec fn elements_bytes(toks: Seq<Seq<char>>) -> Seq<u8>
    decreases toks.len(),
{
    if toks.len() == 0 {
        seq![]
    } else {
        element_bytes(toks[0]) + elements_bytes(toks.drop_first())
    }
}

/// The wire encoding of a whole frame: the `*` marker, the decimal element
/// count, a line terminator, and the elements.
pub open spec fn frame_bytes(toks: Seq<Seq<char>>) -> Seq<u8> {
    seq![42u8] + dec_bytes(toks.len()) + crlf_bytes() + elements_bytes(toks)
}

/// Decimal digit bytes are digits, and there is at least one.
pub proof fn lemma_dec_bytes_digits(n: nat)
    ensures
        dec_bytes(n).len() >= 1,
        forall|j: int| 0 <= j < dec_bytes(n).len() ==> is_digit_byte(#[trigger] dec_bytes(n)[j]),
    decreases n,
{
    if n >= 10 {
        lemma_dec_bytes_digits(n / 10);
    }
}

/// Reading the decimal digit bytes of `n` back gives `n`.
pub proof fn lemma_dec_bytes_val(n: nat)
    ensures
        digits_val(dec_bytes(n)) == n,
    decreases n,
{
    if n < 10 {
        assert(dec_bytes(n).len() == 1);
        assert(dec_bytes(n).last() == (48 + n) as u8);
        assert(is_digit_byte((48 + n) as u8));
        assert(dec_bytes(n).drop_last() =~= Seq::<u8>::empty());
        assert(digits_val(Seq::<u8>::empty()) == 0);
    } else {
        lemma_dec_bytes_val(n / 10);
        assert(is_digit_byte((48 + n % 10) as u8));
        assert(dec_bytes(n).last() == (48 + n % 10) as u8);
        assert(dec_bytes(n).drop_last() =~= dec_bytes(n / 10));
    }
}

/// Parsing a sequence that starts with digit bytes and then a non-digit
/// consumes exactly those digits and reads their value.
pub proof fn lemma_parse_digits(d: Seq<u8>, rest: Seq<u8>)
    requires
        forall|j: int| 0 <= j < d.len() ==> is_digit_byte(#[trigger] d[j]),
        rest.len() > 0 ==> !is_digit_byte(rest[0]),
    ensures
        digit_prefix_len(d + rest) == d.len(),
        parsed_val(d + rest) == digits_val(d),
{
    let s = d + rest;
    assert(forall|j: int| 0 <= j < d.len() ==> s[j] == #[trigger] d[j]);
    if d.len() < s.len() {
        assert(s[d.len() as int] == rest[0]);
    }
    crate::tokenize::lemma_digit_prefix_is(s, d.len() as int);
    assert(s.take(d.len() as int) =~= d);
}

/// Decoding the encoded elements from their start, with their count, returns
/// exactly the original tokens.
proof fn lemma_decode_elements(buf: Seq<u8>, i: int, toks: Seq<Seq<char>>)
    requires
        0 <= i <= buf.len(),
        buf.subrange(i, buf.len() as int) == elements_bytes(toks),
    ensures
        decode_elems(buf, i, toks.len() as int) == toks,
    decreases toks.len(),
{
    if toks.len() == 0 {
        assert(decode_elems(buf, i, 0) =~= toks);
    } else {
        let t0 = toks[0];
        let rest = toks.drop_first();
        let e = encode_utf8(t0);
        let ll = e.len() as int;
        let d = dec_bytes(e.len());
        let dl = d.len() as int;
        lemma_dec_bytes_digits(e.len());
        lemma_dec_bytes_val(e.len());
        let tail = buf.subrange(i, buf.len() as int);
        let eb = element_bytes(t0);
        assert(tail == eb + elements_bytes(rest));
        assert(eb == seq![36u8] + d + crlf_bytes() + e + crlf_bytes());
        assert(crlf_bytes().len() == 2);
        assert(crlf_bytes()[0] == 13u8 && crlf_bytes()[1] == 10u8);
        assert(eb.len() == 1 + dl + 2 + ll + 2);
        assert(buf.len() - i >= 1 + dl + 2 + ll + 2);
        assert(buf[i] == tail[0]);
        assert(tail[0] == 36u8);
        let after_digits = crlf_bytes() + e + crlf_bytes() + elements_bytes(rest);
        assert(tail.skip(1) =~= d + after_digits);
        assert(buf.skip(i + 1) =~= tail.skip(1));
        assert(after_digits[0] == 13u8);
        assert(!is_digit_byte(after_digits[0]));
        lemma_parse_digits(d, after_digits);
        assert(digit_prefix_len(buf.skip(i + 1)) == dl);
        assert(parsed_val(buf.skip(i + 1)) == ll);
        let k = i + 1 + dl;
        assert(buf[k] == tail[1 + dl]);
        assert(tail[1 + dl] == 13u8);
        assert(buf[k + 1] == tail[1 + dl + 1]);
        assert(tail[1 + dl + 1] == 10u8);
        assert(crate::tokenize::crlf_at(buf, k));
        let m = k + 2;
        assert(m + ll <= buf.len());
        assert(buf.subrange(m, m + ll) =~= tail.subrange(1 + dl + 2, 1 + dl + 2 + ll));
        assert(tail.subrange(1 + dl + 2, 1 + dl + 2 + ll) =~= e);
        encode_utf8_valid_utf8(t0);
        encode_utf8_decode_utf8(t0);
        assert(vstd::utf8::valid_utf8(buf.subrange(m, m + ll)));
        assert(decode_utf8_of(buf.subrange(m, m + ll)) == t0);
        assert(buf[m + ll] == tail[1 + dl + 2 + ll]);
        assert(tail[1 + dl + 2 + ll] == 13u8);
        assert(buf[m + ll + 1] == tail[1 + dl + 2 + ll + 1]);
        assert(tail[1 + dl + 2 + ll + 1] == 10u8);
        assert(crate::tokenize::crlf_at(buf, m + ll));
        assert(buf.subrange(m + ll + 2, buf.len() as int) =~= tail.skip(1 + dl + 2 + ll + 2));
        assert(tail.skip(1 + dl + 2 + ll + 2) =~= elements_bytes(rest));
        lemma_decode_elements(buf, m + ll + 2, rest);
        assert(decode_elems(buf, i, toks.len() as int) == seq![t0] + decode_elems(
            buf,
            m + ll + 2,
            toks.len() as int - 1,
        ));
        assert(seq![t0] + rest =~= toks);
    }
}

/// Alias so the statement above can name the decoded characters of a byte
/// sequence tersely.
pub open spec fn decode_utf8_of(bytes: Seq<u8>) -> Seq<char> {
    vstd::utf8::decode_utf8(bytes)
}

/// Round trip: decoding an encoded frame yields exactly the frame's tokens —
/// any tokens, any count.
pub proof fn lemma_frame_roundtrip(toks: Seq<Seq<char>>)
    ensures
        resp_tokens(frame_bytes(toks)) == toks,
{
    let buf = frame_bytes(toks);
    let d = dec_bytes(toks.len());
    let dl = d.len() as int;
    lemma_dec_bytes_digits(toks.len());
    lemma_dec_bytes_val(toks.len());
    assert(buf == seq![42u8] + d + crlf_bytes() + elements_bytes(toks));
    assert(crlf_bytes().len() == 2);
    assert(crlf_bytes()[0] == 13u8 && crlf_bytes()[1] == 10u8);
    let after_digits = crlf_bytes() + elements_bytes(toks);
    assert(buf.skip(1) =~= d + after_digits);
    assert(after_digits[0] == 13u8);
    assert(!is_digit_byte(after_digits[0]));
    lemma_parse_digits(d, after_digits);
    assert(digit_prefix_len(buf.skip(1)) == dl);
    assert(parsed_val(buf.skip(1)) == toks.len());
    assert(buf.len() >= 1 + dl + 2);
    assert(buf[1 + dl] == 13u8);
    assert(buf[1 + dl + 1] == 10u8);
    assert(crate::tokenize::crlf_at(buf, 1 + dl));
    assert(buf.subrange(1 + dl + 2, buf.len() as int) =~= elements_bytes(toks));
    lemma_decode_elements(buf, 1 + dl + 2, toks);
}

/// The six command names are pairwise different.
proof fn lemma_command_names_distinct()
    ensures
        "GET"@ != "SET"@,
        "GET"@ != "SETNX"@,
        "GET"@ != "DEL"@,
        "GET"@ != "EXISTS"@,
        "GET"@ != "TYPE"@,
        "SET"@ != "SETNX"@,
        "SET"@ != "DEL"@,
        "SET"@ != "EXISTS"@,
        "SET"@ != "TYPE"@,
        "SETNX"@ != "DEL"@,
        "SETNX"@ != "EXISTS"@,
        "SETNX"@ != "TYPE"@,
        "DEL"@ != "EXISTS"@,
        "DEL"@ != "TYPE"@,
        "EXISTS"@ != "TYPE"@,
{
    reveal_strlit("GET");
    reveal_strlit("SET");
    reveal_strlit("SETNX");
    reveal_strlit("DEL");
    reveal_strlit("EXISTS");
    reveal_strlit("TYPE");
    assert("GET"@.len() == 3 && "SET"@.len() == 3 && "DEL"@.len() == 3);
    assert("SETNX"@.len() == 5 && "EXISTS"@.len() == 6 && "TYPE"@.len() == 4);
    assert("GET"@[0] == 'G' && "SET"@[0] == 'S' && "DEL"@[0] == 'D');
}

/// Setting a key and then getting it replies with exactly the value set,
/// for every key, value, and prior store state; the get changes nothing.
pub proof fn lemma_set_then_get(m: Map<Seq<char>, Seq<char>>, k: Seq<char>, v: Seq<char>)
    ensures
        reply_spec(seq!["GET"@, k], store_after(seq!["SET"@, k, v], m)) == crate::formatter::bulk_reply(v),
        store_after(seq!["GET"@, k], store_after(seq!["SET"@, k, v], m)) == store_after(
            seq!["SET"@, k, v],
            m,
        ),
{
    let m1 = store_after(seq!["SET"@, k, v], m);
    assert(m1 == m.insert(k, v));
    assert(m1.contains_key(k) && m1[k] == v);
}

/// Getting an absent key replies with the nil bulk — a normal result, never
/// the error reply — and changes nothing.
pub proof fn lemma_get_absent_nil(m: Map<Seq<char>, Seq<char>>, k: Seq<char>)
    requires
        !m.contains_key(k),
    ensures
        reply_spec(seq!["GET"@, k], m) == nil_reply(),
        reply_spec(seq!["GET"@, k], m) != err_reply(),
        store_after(seq!["GET"@, k], m) == m,
{
    reveal_strlit("$-1\r\n");
    reveal_strlit("-ERR unknown command\r\n");
    assert(nil_reply().len() == 5);
    assert(err_reply().len() == 22);
}

/// Inserting an absent key replies 1 and stores the value; a second insert of
/// the same key replies 0 and leaves the first value untouched.
pub proof fn lemma_setnx_first_wins(
    m: Map<Seq<char>, Seq<char>>,
    k: Seq<char>,
    v: Seq<char>,
    v2: Seq<char>,
)
    requires
        !m.contains_key(k),
    ensures
        reply_spec(seq!["SETNX"@, k, v], m) == integer_reply(1),
        store_after(seq!["SETNX"@, k, v], m) == m.insert(k, v),
        reply_spec(seq!["SETNX"@, k, v2], m.insert(k, v)) == integer_reply(0),
        store_after(seq!["SETNX"@, k, v2], m.insert(k, v)) == m.insert(k, v),
        store_after(seq!["SETNX"@, k, v2], m.insert(k, v))[k] == v,
{
    lemma_command_names_distinct();
}

/// How many of `keys` are present in `m`, counting positions.
pub open spec fn count_present(m: Map<Seq<char>, Seq<char>>, keys: Seq<Seq<char>>) -> nat
    decreases keys.len(),
{
    if keys.len() == 0 {
        0
    } else {
        (if m.contains_key(keys[0]) {
            1nat
        } else {
            0nat
        }) + count_present(m, keys.drop_first())
    }
}

/// Removing a key that `keys` does not hold does not change how many of
/// `keys` are present.
proof fn lemma_count_present_remove_other(
    m: Map<Seq<char>, Seq<char>>,
    keys: Seq<Seq<char>>,
    k: Seq<char>,
)
    requires
        !keys.contains(k),
    ensures
        count_present(m.remove(k), keys) == count_present(m, keys),
    decreases keys.len(),
{
    if keys.len() > 0 {
        assert(keys[0] != k);
        assert(!keys.drop_first().contains(k)) by {
            if keys.drop_first().contains(k) {
                let j = choose|j: int| 0 <= j < keys.drop_first().len() && keys.drop_first()[j]
                    == k;
                assert(keys[j + 1] == k);
            }
        }
        lemma_count_present_remove_other(m, keys.drop_first(), k);
    }
}

/// With distinct keys, the removal count is the number of the keys that were
/// present at the start.
pub proof fn lemma_del_count_distinct(m: Map<Seq<char>, Seq<char>>, keys: Seq<Seq<char>>)
    requires
        forall|a: int, b: int| 0 <= a < b < keys.len() ==> keys[a] != keys[b],
    ensures
        del_count(m, keys) == count_present(m, keys),
    decreases keys.len(),
{
    if keys.len() > 0 {
        let k0 = keys[0];
        let rest = keys.drop_first();
        assert(forall|a: int, b: int| 0 <= a < b < rest.len() ==> rest[a] != rest[b]) by {
            assert(forall|a: int| 0 <= a < rest.len() ==> rest[a] == keys[a + 1]);
        }
        assert(!rest.contains(k0)) by {
            if rest.contains(k0) {
                let j = choose|j: int| 0 <= j < rest.len() && rest[j] == k0;
                assert(keys[j + 1] == keys[0]);
            }
        }
        lemma_del_count_distinct(m.remove(k0), rest);
        lemma_count_present_remove_other(m, rest, k0);
    }
}

/// After a removal pass, a key is present exactly when it was present before
/// and was not in the removal list; surviving keys keep their values.
pub proof fn lemma_map_after_del_contains(
    m: Map<Seq<char>, Seq<char>>,
    keys: Seq<Seq<char>>,
    k: Seq<char>,
)
    ensures
        map_after_del(m, keys).contains_key(k) <==> (m.contains_key(k) && !keys.contains(k)),
        map_after_del(m, keys).contains_key(k) ==> map_after_del(m, keys)[k] == m[k],
    decreases keys.len(),
{
    if keys.len() > 0 {
        lemma_map_after_del_contains(m.remove(keys[0]), keys.drop_first(), k);
        assert(keys.contains(k) <==> (keys[0] == k || keys.drop_first().contains(k))) by {
            if keys.contains(k) {
                let j = choose|j: int| 0 <= j < keys.len() && keys[j] == k;
                if j > 0 {
                    assert(keys.drop_first()[j - 1] == k);
                }
            }
            if keys.drop_first().contains(k) {
                let j = choose|j: int| 0 <= j < keys.drop_first().len() && keys.drop_first()[j]
                    == k;
                assert(keys[j + 1] == k);
            }
        }
    }
}

/// Removing distinct keys replies with the count of those present just before
/// the call, and a presence test of any removed key then replies 0.
pub proof fn lemma_del_then_absent(m: Map<Seq<char>, Seq<char>>, keys: Seq<Seq<char>>)
    requires
        keys.len() >= 1,
        forall|a: int, b: int| 0 <= a < b < keys.len() ==> keys[a] != keys[b],
    ensures
        reply_spec(seq!["DEL"@] + keys, m) == integer_reply(count_present(m, keys) as int),
        forall|i: int|
            0 <= i < keys.len() ==> reply_spec(
                seq!["EXISTS"@, keys[i]],
                store_after(seq!["DEL"@] + keys, m),
            ) == integer_reply(0),
{
    lemma_command_names_distinct();
    let t = seq!["DEL"@] + keys;
    assert(t[0] == "DEL"@);
    assert(t.drop_first() =~= keys);
    assert(is_del(t));
    assert(!is_get(t) && !is_set(t) && !is_setnx(t));
    lemma_del_count_distinct(m, keys);
    let m1 = store_after(t, m);
    assert(m1 == map_after_del(m, keys));
    assert forall|i: int| 0 <= i < keys.len() implies reply_spec(seq!["EXISTS"@, keys[i]], m1)
        == integer_reply(0) by {
        lemma_map_after_del_contains(m, keys, keys[i]);
        assert(keys.contains(keys[i]));
        assert(!m1.contains_key(keys[i]));
    }
}

/// The type reply names `string` exactly when the presence test replies 1,
/// and `none` exactly when it replies 0.
pub proof fn lemma_type_matches_exists(m: Map<Seq<char>, Seq<char>>, k: Seq<char>)
    ensures
        (reply_spec(seq!["TYPE"@, k], m) == type_string_reply()) <==> (reply_spec(
            seq!["EXISTS"@, k],
            m,
        ) == integer_reply(1)),
        (reply_spec(seq!["TYPE"@, k], m) == type_none_reply()) <==> (reply_spec(
            seq!["EXISTS"@, k],
            m,
        ) == integer_reply(0)),
{
    lemma_command_names_distinct();
    reveal_strlit("+string\r\n");
    reveal_strlit("+none\r\n");
    assert(type_string_reply().len() == 9);
    assert(type_none_reply().len() == 7);
    assert(type_string_reply() != type_none_reply());
    assert(int_digits(1) =~= seq!['1']);
    assert(int_digits(0) =~= seq!['0']);
    assert(integer_reply(1)[1] == '1' && integer_reply(0)[1] == '0');
    assert(integer_reply(1) != integer_reply(0));
}

/// A token list that matches no table entry — unknown name or wrong token
/// count, the empty list included — replies with the one generic error and
/// leaves the store unchanged.
pub proof fn lemma_unrecognized_is_error(t: Seq<Seq<char>>, m: Map<Seq<char>, Seq<char>>)
    requires
        !recognized(t),
    ensures
        reply_spec(t, m) == err_reply(),
        store_after(t, m) == m,
{
}

/// The store state after a sequence of one-key writes, each served in order.
pub open spec fn apply_sets(
    m: Map<Seq<char>, Seq<char>>,
    writes: Seq<(Seq<char>, Seq<char>)>,
) -> Map<Seq<char>, Seq<char>>
    decreases writes.len(),
{
    if writes.len() == 0 {
        m
    } else {
        store_after(
            seq!["SET"@, writes.last().0, writes.last().1],
            apply_sets(m, writes.drop_last()),
        )
    }
}

/// After a sequence of writes, a key written at `j` and never afterwards
/// holds exactly the value written at `j`: the last write per key wins, in
/// the order the writes were served.
pub proof fn lemma_last_set_wins(
    m: Map<Seq<char>, Seq<char>>,
    writes: Seq<(Seq<char>, Seq<char>)>,
    j: int,
)
    requires
        0 <= j < writes.len(),
        forall|l: int| j < l < writes.len() ==> writes[l].0 != writes[j].0,
    ensures
        apply_sets(m, writes).contains_key(writes[j].0),
        apply_sets(m, writes)[writes[j].0] == writes[j].1,
    decreases writes.len(),
{
    if j == writes.len() - 1 {
    } else {
        assert(forall|l: int| j < l < writes.len() - 1 ==> writes.drop_last()[l] == writes[l]);
        assert(writes.drop_last()[j] == writes[j]);
        lemma_last_set_wins(m, writes.drop_last(), j);
        assert(writes.last().0 != writes[j].0);
    }
}

/// A key no write names keeps its prior presence and value through the whole
/// sequence of writes.
pub proof fn lemma_unwritten_key_unchanged(
    m: Map<Seq<char>, Seq<char>>,
    writes: Seq<(Seq<char>, Seq<char>)>,
    k: Seq<char>,
)
    requires
        forall|l: int| 0 <= l < writes.len() ==> writes[l].0 != k,
    ensures
        apply_sets(m, writes).contains_key(k) == m.contains_key(k),
        m.contains_key(k) ==> apply_sets(m, writes)[k] == m[k],
    decreases writes.len(),
{
    if writes.len() > 0 {
        assert(forall|l: int| 0 <= l < writes.len() - 1 ==> writes.drop_last()[l] == writes[l]);
        lemma_unwritten_key_unchanged(m, writes.drop_last(), k);
        assert(writes.last().0 != k);
    }
}

} // verus!
