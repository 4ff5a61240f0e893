use respkv::req_handler::{is_write_command, serve_read_request, serve_request};
use respkv::store::Store;

const ERR: &str = "-ERR unknown command\r\n";

fn strings(words: &[&str]) -> Vec<String> {
    words.iter().map(|w| w.to_string()).collect()
}

fn serve(store: &mut Store, words: &[&str]) -> String {
    serve_request(&strings(words), store)
}

#[test]
fn set_then_get_round_trips_value() {
    let mut s = Store::new();
    assert_eq!(serve(&mut s, &["SET", "k", "v"]), "+OK\r\n");
    assert_eq!(serve(&mut s, &["GET", "k"]), "$1\r\nv\r\n");
    assert_eq!(serve(&mut s, &["SET", "k", "longer value"]), "+OK\r\n");
    assert_eq!(serve(&mut s, &["GET", "k"]), "$12\r\nlonger value\r\n");
}

#[test]
fn get_absent_key_is_nil_not_error() {
    let mut s = Store::new();
    assert_eq!(serve(&mut s, &["GET", "missing"]), "$-1\r\n");
}

#[test]
fn setnx_first_wins() {
    let mut s = Store::new();
    assert_eq!(serve(&mut s, &["SETNX", "k", "v"]), ":1\r\n");
    assert_eq!(serve(&mut s, &["SETNX", "k", "v2"]), ":0\r\n");
    assert_eq!(serve(&mut s, &["GET", "k"]), "$1\r\nv\r\n");
}

#[test]
fn del_counts_keys_present_before_the_call() {
    let mut s = Store::new();
    serve(&mut s, &["SET", "a", "1"]);
    serve(&mut s, &["SET", "b", "2"]);
    serve(&mut s, &["SET", "c", "3"]);
    assert_eq!(serve(&mut s, &["DEL", "a", "x", "c"]), ":2\r\n");
    assert_eq!(serve(&mut s, &["EXISTS", "a"]), ":0\r\n");
    assert_eq!(serve(&mut s, &["EXISTS", "b"]), ":1\r\n");
    assert_eq!(serve(&mut s, &["EXISTS", "c"]), ":0\r\n");
    assert_eq!(serve(&mut s, &["DEL", "a", "x", "c"]), ":0\r\n");
}

#[test]
fn type_matches_exists() {
    let mut s = Store::new();
    serve(&mut s, &["SET", "k", "v"]);
    assert_eq!(serve(&mut s, &["EXISTS", "k"]), ":1\r\n");
    assert_eq!(serve(&mut s, &["TYPE", "k"]), "+string\r\n");
    assert_eq!(serve(&mut s, &["EXISTS", "nope"]), ":0\r\n");
    assert_eq!(serve(&mut s, &["TYPE", "nope"]), "+none\r\n");
}

#[test]
fn unknown_command_and_wrong_arity_get_one_error() {
    let mut s = Store::new();
    assert_eq!(serve(&mut s, &["FOO", "a", "b"]), ERR);
    assert_eq!(serve(&mut s, &["GET"]), ERR);
    assert_eq!(serve(&mut s, &["GET", "a", "b"]), ERR);
    assert_eq!(serve(&mut s, &["SET", "a"]), ERR);
    assert_eq!(serve(&mut s, &["SET", "a", "b", "c"]), ERR);
    assert_eq!(serve(&mut s, &["SETNX", "a"]), ERR);
    assert_eq!(serve(&mut s, &["DEL"]), ERR);
    assert_eq!(serve(&mut s, &["EXISTS"]), ERR);
    assert_eq!(serve(&mut s, &["EXISTS", "a", "b"]), ERR);
    assert_eq!(serve(&mut s, &["TYPE"]), ERR);
    assert_eq!(serve(&mut s, &[]), ERR);
}

#[test]
fn command_names_are_case_sensitive() {
    let mut s = Store::new();
    assert_eq!(serve(&mut s, &["get", "k"]), ERR);
    assert_eq!(serve(&mut s, &["Set", "k", "v"]), ERR);
}

#[test]
fn write_commands_are_exactly_the_writes() {
    assert!(is_write_command(&strings(&["SET", "k", "v"])));
    assert!(is_write_command(&strings(&["SETNX", "k", "v"])));
    assert!(is_write_command(&strings(&["DEL", "k"])));
    assert!(!is_write_command(&strings(&["GET", "k"])));
    assert!(!is_write_command(&strings(&["EXISTS", "k"])));
    assert!(!is_write_command(&strings(&["TYPE", "k"])));
    assert!(!is_write_command(&strings(&["SET", "k"])));
    assert!(!is_write_command(&strings(&[])));
}

#[test]
fn read_requests_match_full_dispatch() {
    let mut s = Store::new();
    serve(&mut s, &["SET", "k", "v"]);
    assert_eq!(serve_read_request(&strings(&["GET", "k"]), &s), "$1\r\nv\r\n");
    assert_eq!(serve_read_request(&strings(&["EXISTS", "k"]), &s), ":1\r\n");
    assert_eq!(serve_read_request(&strings(&["TYPE", "k"]), &s), "+string\r\n");
    assert_eq!(serve_read_request(&strings(&["FOO"]), &s), ERR);
}

#[test]
fn last_set_per_key_wins_across_interleaved_writers() {
    // A sequential shadow of concurrent writers: writes to distinct keys
    // interleaved in some order; each key holds its last written value.
    let mut s = Store::new();
    serve(&mut s, &["SET", "a", "a1"]);
    serve(&mut s, &["SET", "b", "b1"]);
    serve(&mut s, &["SET", "a", "a2"]);
    serve(&mut s, &["SET", "c", "c1"]);
    serve(&mut s, &["SET", "b", "b2"]);
    assert_eq!(serve(&mut s, &["GET", "a"]), "$2\r\na2\r\n");
    assert_eq!(serve(&mut s, &["GET", "b"]), "$2\r\nb2\r\n");
    assert_eq!(serve(&mut s, &["GET", "c"]), "$2\r\nc1\r\n");
}

#[test]
fn decoded_frame_drives_dispatch_end_to_end() {
    let mut s = Store::new();
    let set = respkv::tokenize::resp_tokenize(b"*3\r\n$3\r\nSET\r\n$2\r\nXX\r\n$5\r\napple\r\n");
    assert_eq!(serve_request(&set, &mut s), "+OK\r\n");
    let get = respkv::tokenize::resp_tokenize(b"*2\r\n$3\r\nGET\r\n$2\r\nXX\r\n");
    assert_eq!(serve_request(&get, &mut s), "$5\r\napple\r\n");
    // A truncated frame degrades to a short token list and the generic error.
    let bad = respkv::tokenize::resp_tokenize(b"*2\r\n$3\r\nGET\r\n");
    assert_eq!(serve_request(&bad, &mut s), ERR);
}
