use respkv::store::Store;

fn strings(words: &[&str]) -> Vec<String> {
    words.iter().map(|w| w.to_string()).collect()
}

#[test]
fn new_store_is_empty() {
    let s = Store::new();
    assert!(!s.contains("k"));
    assert_eq!(s.get("k"), None);
}

#[test]
fn set_then_get_returns_value() {
    let mut s = Store::new();
    assert_eq!(s.set("k", "v"), None);
    assert_eq!(s.get("k"), Some("v".to_string()));
    assert!(s.contains("k"));
}

#[test]
fn set_overwrites_and_returns_previous() {
    let mut s = Store::new();
    s.set("k", "v1");
    assert_eq!(s.set("k", "v2"), Some("v1".to_string()));
    assert_eq!(s.get("k"), Some("v2".to_string()));
}

#[test]
fn set_if_absent_inserts_only_once() {
    let mut s = Store::new();
    assert!(s.set_if_absent("k", "v"));
    assert!(!s.set_if_absent("k", "v2"));
    assert_eq!(s.get("k"), Some("v".to_string()));
}

#[test]
fn remove_reports_presence() {
    let mut s = Store::new();
    s.set("k", "v");
    assert!(s.remove("k"));
    assert!(!s.remove("k"));
    assert_eq!(s.get("k"), None);
}

#[test]
fn remove_many_counts_present_keys() {
    let mut s = Store::new();
    s.set("a", "1");
    s.set("b", "2");
    s.set("c", "3");
    let n = s.remove_many(&strings(&["a", "x", "c"]));
    assert_eq!(n, 2);
    assert!(!s.contains("a"));
    assert!(s.contains("b"));
    assert!(!s.contains("c"));
}

#[test]
fn remove_many_counts_duplicates_once() {
    let mut s = Store::new();
    s.set("a", "1");
    let n = s.remove_many(&strings(&["a", "a", "a"]));
    assert_eq!(n, 1);
    assert!(!s.contains("a"));
}

#[test]
fn empty_key_and_value_are_ordinary() {
    let mut s = Store::new();
    s.set("", "");
    assert!(s.contains(""));
    assert_eq!(s.get(""), Some("".to_string()));
}
