//! Command dispatcher: validates one decoded token list against the fixed
//! command table, keyed on the exact, case-sensitive command name and the
//! token count, and performs the store operation it names. Any name not in
//! the table — and any listed name with the wrong token count, including an
//! empty token list from a failed decode — yields the one generic error
//! reply.

use vstd::prelude::*;
use vstd::string::StringExecFns;

use crate::formatter::{
    bulk_reply, err_reply, integer_reply, nil_reply, ok_reply, type_none_reply, type_string_reply,
};
use crate::formatter::{count_format, integer_format, resp_bulk_format};
use crate::store::{del_count, map_after_del, Store};
use crate::text::str_eq;

verus! {

/// A well-formed read of one key.
pub open spec fn is_get(t: Seq<Seq<char>>) -> bool {
    t.len() == 2 && t[0] == "GET"@
}

/// A well-formed unconditional write of one key.
pub open spec fn is_set(t: Seq<Seq<char>>) -> bool {
    t.len() == 3 && t[0] == "SET"@
}

/// A well-formed insert-if-absent of one key.
pub open spec fn is_setnx(t: Seq<Seq<char>>) -> bool {
    t.len() == 3 && t[0] == "SETNX"@
}

/// A well-formed removal of one or more keys.
pub open spec fn is_del(t: Seq<Seq<char>>) -> bool {
    t.len() >= 2 && t[0] == "DEL"@
}

/// A well-formed presence test of one key.
pub open spec fn is_exists(t: Seq<Seq<char>>) -> bool {
    t.len() == 2 && t[0] == "EXISTS"@
}

/// A well-formed type query of one key.
pub open spec fn is_type(t: Seq<Seq<char>>) -> bool {
    t.len() == 2 && t[0] == "TYPE"@
}

/// The token list matches some entry of the command table.
pub open spec fn recognized(t: Seq<Seq<char>>) -> bool {
    is_get(t) || is_set(t) || is_setnx(t) || is_del(t) || is_exists(t) || is_type(t)
}

/// The token list names a command that writes the store.
pub open spec fn is_write(t: Seq<Seq<char>>) -> bool {
    is_set(t) || is_setnx(t) || is_del(t)
}

/// Reply to a read of key `k`: the value as a bulk string, or the nil bulk.
pub open spec fn get_reply(k: Seq<char>, m: Map<Seq<char>, Seq<char>>) -> Seq<char> {
    if m.contains_key(k) {
        bulk_reply(m[k])
    } else {
        nil_reply()
    }
}

/// The reply to a token list against store state `m`, per the command table;
/// checked in a fixed order, first match deciding.
pub open spec fn reply_spec(t: Seq<Seq<char>>, m: Map<Seq<char>, Seq<char>>) -> Seq<char> {
    if is_get(t) {
        get_reply(t[1], m)
    } else if is_set(t) {
        ok_reply()
    } else if is_setnx(t) {
        if m.contains_key(t[1]) {
            integer_reply(0)
        } else {
            integer_reply(1)
        }
    } else if is_del(t) {
        integer_reply(del_count(m, t.drop_first()) as int)
    } else if is_exists(t) {
        if m.contains_key(t[1]) {
            integer_reply(1)
        } else {
            integer_reply(0)
        }
    } else if is_type(t) {
        if m.contains_key(t[1]) {
            type_string_reply()
        } else {
            type_none_reply()
        }
    } else {
        err_reply()
    }
}

/// The store state after serving a token list against state `m`. Only the
/// write commands change it.
pub open spec fn store_after(t: Seq<Seq<char>>, m: Map<Seq<char>, Seq<char>>) -> Map<
    Seq<char>,
    Seq<char>,
> {
    if is_get(t) {
        m
    } else if is_set(t) {
        m.insert(t[1], t[2])
    } else if is_setnx(t) {
        if m.contains_key(t[1]) {
            m
        } else {
            m.insert(t[1], t[2])
        }
    } else if is_del(t) {
        map_after_del(m, t.drop_first())
    } else {
        m
    }
}

/// Serves a read of one key: the stored value as a bulk string, or the nil
/// bulk when the key is absent — never an error.
pub fn get_req(key: &str, store: &Store) -> (r: String)
    requires
        store.wf(),
    ensures
        r@ == get_reply(key@, store@),
{
    match store.get(key) {
        Some(val) => resp_bulk_format(val.as_str()),
        None => String::from_str("$-1\r\n"),
    }
}

/// Serves an unconditional write: stores the value and reports success.
pub fn set_req(key: &str, val: &str, store: &mut Store) -> (r: String)
    requires
        old(store).wf(),
    ensures
        final(store).wf(),
        final(store)@ == old(store)@.insert(key@, val@),
        r@ == ok_reply(),
{
    let _prev = store.set(key, val);
    String::from_str("+OK\r\n")
}

/// Serves an insert-if-absent: stores the value and replies 1 only when the
/// key was absent; otherwise leaves the stored value and replies 0.
pub fn setnx_req(key: &str, val: &str, store: &mut Store) -> (r: String)
    requires
        old(store).wf(),
    ensures
        final(store).wf(),
        final(store)@ == if old(store)@.contains_key(key@) {
            old(store)@
        } else {
            old(store)@.insert(key@, val@)
        },
        r@ == if old(store)@.contains_key(key@) {
            integer_reply(0)
        } else {
            integer_reply(1)
        },
{
    if store.set_if_absent(key, val) {
        integer_format(1)
    } else {
        integer_format(0)
    }
}

/// Serves a presence test of one key: 1 when present, 0 when absent.
pub fn exists_req(key: &str, store: &Store) -> (r: String)
    ensures
        r@ == if store@.contains_key(key@) {
            integer_reply(1)
        } else {
            integer_reply(0)
        },
{
    if store.contains(key) {
        integer_format(1)
    } else {
        integer_format(0)
    }
}

/// Serves a removal of the given keys in one pass, replying with how many
/// were present and removed.
pub fn del_req(keys: &Vec<String>, store: &mut Store) -> (r: String)
    requires
        old(store).wf(),
    ensures
        final(store).wf(),
        final(store)@ == map_after_del(old(store)@, keys.deep_view()),
        r@ == integer_reply(del_count(old(store)@, keys.deep_view()) as int),
{
    let count = store.remove_many(keys);
    count_format(count)
}

/// Serves a type query of one key: the stored values are strings, so the
/// reply names `string` when the key is present and `none` otherwise.
pub fn type_req(key: &str, store: &Store) -> (r: String)
    ensures
        r@ == if store@.contains_key(key@) {
            type_string_reply()
        } else {
            type_none_reply()
        },
{
    if store.contains(key) {
        String::from_str("+string\r\n")
    } else {
        String::from_str("+none\r\n")
    }
}

/// Whether the token list names a command that takes the store's exclusive,
/// write half; reads need only its shared half.
pub fn is_write_command(tokens: &Vec<String>) -> (r: bool)
    ensures
        r == is_write(tokens.deep_view()),
{
    if tokens.len() == 0 {
        return false;
    }
    let name = tokens[0].as_str();
    (str_eq(name, "SET") && tokens.len() == 3) || (str_eq(name, "SETNX") && tokens.len() == 3) || (
    str_eq(name, "DEL") && tokens.len() >= 2)
}

/// Serves one decoded token list against the store: validates it against the
/// command table, performs the named operation, and returns the encoded
/// reply. Unrecognized input — unknown name, wrong token count, or an empty
/// list — gets the generic error reply and leaves the store unchanged.
pub fn serve_request(tokens: &Vec<String>, store: &mut Store) -> (reply: String)
    requires
        old(store).wf(),
    ensures
        final(store).wf(),
        final(store)@ == store_after(tokens.deep_view(), old(store)@),
        reply@ == reply_spec(tokens.deep_view(), old(store)@),
{
    let ghost t = tokens.deep_view();
    if tokens.len() == 0 {
        return String::from_str("-ERR unknown command\r\n");
    }
    let name = tokens[0].as_str();
    if str_eq(name, "GET") && tokens.len() == 2 {
        get_req(tokens[1].as_str(), store)
    } else if str_eq(name, "SET") && tokens.len() == 3 {
        set_req(tokens[1].as_str(), tokens[2].as_str(), store)
    } else if str_eq(name, "SETNX") && tokens.len() == 3 {
        setnx_req(tokens[1].as_str(), tokens[2].as_str(), store)
    } else if str_eq(name, "DEL") && tokens.len() >= 2 {
        let mut keys: Vec<String> = Vec::new();
        let mut j: usize = 1;
        proof {
            assert(keys.deep_view() =~= t.subrange(1, 1));
        }
        while j < tokens.len()
            invariant
                1 <= j <= tokens@.len(),
                t == tokens.deep_view(),
                t.len() == tokens@.len(),
                keys.deep_view() == t.subrange(1, j as int),
            decreases tokens@.len() - j,
        {
            let ghost k0 = keys.deep_view();
            keys.push(tokens[j].clone());
            proof {
                assert(keys.deep_view() =~= k0.push(t[j as int]));
                assert(k0.push(t[j as int]) =~= t.subrange(1, j as int + 1));
            }
            j += 1;
        }
        proof {
            assert(keys.deep_view() =~= t.drop_first());
        }
        del_req(&keys, store)
    } else if str_eq(name, "EXISTS") && tokens.len() == 2 {
        exists_req(tokens[1].as_str(), store)
    } else if str_eq(name, "TYPE") && tokens.len() == 2 {
        type_req(tokens[1].as_str(), store)
    } else {
        String::from_str("-ERR unknown command\r\n")
    }
}

/// Serves one decoded token list that names no write command, against shared
/// read access to the store. The reply is the same as `serve_request` gives,
/// and the store is untouched.
pub fn serve_read_request(tokens: &Vec<String>, store: &Store) -> (reply: String)
    requires
        store.wf(),
        !is_write(tokens.deep_view()),
    ensures
        reply@ == reply_spec(tokens.deep_view(), store@),
{
    if tokens.len() == 0 {
        return String::from_str("-ERR unknown command\r\n");
    }
    let name = tokens[0].as_str();
    if str_eq(name, "GET") && tokens.len() == 2 {
        get_req(tokens[1].as_str(), store)
    } else if str_eq(name, "EXISTS") && tokens.len() == 2 {
        exists_req(tokens[1].as_str(), store)
    } else if str_eq(name, "TYPE") && tokens.len() == 2 {
        type_req(tokens[1].as_str(), store)
    } else {
        String::from_str("-ERR unknown command\r\n")
    }
}

} // verus!
