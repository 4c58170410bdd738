use serde_json::Value;
use translation_sync::dictionary::{Dictionary, PLACEHOLDER};
use translation_sync::error::SyncError;
use translation_sync::keys::KeySet;

fn text(value: &str) -> Value {
    Value::String(value.to_string())
}

fn refusal(bytes: &[u8]) -> serde_json::Error {
    match Dictionary::parse(bytes) {
        Err(SyncError::InvalidDictionary(cause)) => cause,
        other => panic!("not refused as a dictionary: {:?}", other),
    }
}

#[test]
fn placeholder_is_the_todo_marker() {
    assert_eq!(PLACEHOLDER, "@@@TODO@@@");
}

#[test]
fn new_dictionary_is_empty() {
    let dictionary = Dictionary::new();
    assert_eq!(dictionary.len(), 0);
    assert!(!dictionary.contains_key("a"));
    assert_eq!(dictionary.get("a"), None);
    assert_eq!(dictionary.member_at(0), None);
    assert_eq!(dictionary.to_pretty_json().unwrap(), "{}");
}

#[test]
fn insert_files_members_in_key_order() {
    let mut dictionary = Dictionary::new();
    dictionary.insert("pear".to_string(), text("poire"));
    dictionary.insert("apple".to_string(), text("pomme"));
    dictionary.insert("plum".to_string(), text("prune"));
    assert_eq!(dictionary.len(), 3);
    assert_eq!(dictionary.member_at(0), Some(("apple", &text("pomme"))));
    assert_eq!(dictionary.member_at(1), Some(("pear", &text("poire"))));
    assert_eq!(dictionary.member_at(2), Some(("plum", &text("prune"))));
    assert_eq!(dictionary.member_at(3), None);
    assert!(dictionary.contains_key("pear"));
    assert!(!dictionary.contains_key("pea"));
}

#[test]
fn insert_replaces_the_value_of_a_key_that_is_held() {
    let mut dictionary = Dictionary::new();
    dictionary.insert("a".to_string(), text("old"));
    dictionary.insert("b".to_string(), text("other"));
    dictionary.insert("a".to_string(), text("new"));
    assert_eq!(dictionary.len(), 2);
    assert_eq!(dictionary.get("a"), Some(&text("new")));
    assert_eq!(dictionary.get("b"), Some(&text("other")));
}

#[test]
fn insert_placeholder_leaves_a_held_key_alone() {
    let mut dictionary = Dictionary::new();
    dictionary.insert("held".to_string(), text("value"));
    assert!(!dictionary.insert_placeholder("held"));
    assert!(dictionary.insert_placeholder("missing"));
    assert!(!dictionary.insert_placeholder("missing"));
    assert_eq!(dictionary.get("held"), Some(&text("value")));
    assert_eq!(dictionary.get("missing"), Some(&text("@@@TODO@@@")));
    assert_eq!(dictionary.len(), 2);
}

#[test]
fn from_members_lets_the_later_member_count() {
    let members = vec![
        ("b".to_string(), text("first")),
        ("a".to_string(), text("only")),
        ("b".to_string(), text("second")),
    ];
    let dictionary = Dictionary::from_members(members);
    assert_eq!(dictionary.len(), 2);
    assert_eq!(dictionary.member_at(0), Some(("a", &text("only"))));
    assert_eq!(dictionary.member_at(1), Some(("b", &text("second"))));
}

#[test]
fn parse_reads_an_object_whatever_the_order_of_its_keys() {
    let dictionary = Dictionary::parse(b" {\"b\": 2, \"a\": [true], \"c\": null} ").unwrap();
    assert_eq!(dictionary.len(), 3);
    assert_eq!(dictionary.member_at(0).unwrap().0, "a");
    assert_eq!(dictionary.member_at(1).unwrap().0, "b");
    assert_eq!(dictionary.member_at(2).unwrap().0, "c");
    assert_eq!(dictionary.get("b"), Some(&Value::from(2)));
    assert_eq!(dictionary.get("c"), Some(&Value::Null));
}

#[test]
fn parse_lets_the_later_of_two_equal_keys_count() {
    let dictionary = Dictionary::parse(b"{\"a\": 1, \"a\": 2}").unwrap();
    assert_eq!(dictionary.len(), 1);
    assert_eq!(dictionary.get("a"), Some(&Value::from(2)));
}

#[test]
fn parse_refuses_what_is_no_object() {
    assert!(refusal(b"\"text\"").is_data());
    assert!(refusal(b"").is_eof());
    assert!(refusal(b"{\"a\": 1,}").is_syntax());
    assert!(refusal(&[b'{', b'"', 0xff, b'"', b':', b'1', b'}']).is_syntax());
}

#[test]
fn pretty_json_is_indented_and_sorted() {
    let dictionary = Dictionary::parse(b"{\"b\":{\"x\":[1,2]},\"a\":\"A\"}").unwrap();
    assert_eq!(
        dictionary.to_pretty_json().unwrap(),
        "{\n  \"a\": \"A\",\n  \"b\": {\n    \"x\": [\n      1,\n      2\n    ]\n  }\n}"
    );
}

#[test]
fn pretty_json_does_not_depend_on_the_order_of_arrival() {
    let mut forward = Dictionary::new();
    forward.insert("a".to_string(), text("1"));
    forward.insert("b".to_string(), text("2"));
    let mut backward = Dictionary::new();
    backward.insert("b".to_string(), text("2"));
    backward.insert("a".to_string(), text("1"));
    assert_eq!(forward.to_pretty_json().unwrap(), backward.to_pretty_json().unwrap());
}

#[test]
fn keys_are_ordered_by_their_bytes() {
    let text = "{\"é\": 1, \"z\": 2, \"Z\": 3, \"\": 4, \"zz\": 5}";
    let dictionary = Dictionary::parse(text.as_bytes()).unwrap();
    let keys: Vec<&str> =
        (0..dictionary.len()).map(|i| dictionary.member_at(i).unwrap().0).collect();
    assert_eq!(keys, vec!["", "Z", "z", "zz", "é"]);
}

#[test]
fn reconcile_adds_what_is_missing_and_nothing_else() {
    let mut dictionary = Dictionary::parse(b"{\"kept\": 7, \"used\": \"done\"}").unwrap();
    let mut used = KeySet::new();
    used.insert("used".to_string());
    used.insert("fresh".to_string());
    dictionary.reconcile(&used);
    assert_eq!(dictionary.len(), 3);
    assert_eq!(dictionary.get("kept"), Some(&Value::from(7)));
    assert_eq!(dictionary.get("used"), Some(&text("done")));
    assert_eq!(dictionary.get("fresh"), Some(&text("@@@TODO@@@")));
}

#[test]
fn reconcile_twice_is_reconcile_once() {
    let mut used = KeySet::new();
    used.insert("b".to_string());
    used.insert("c".to_string());
    let mut dictionary = Dictionary::parse(b"{\"a\": 1, \"b\": 2}").unwrap();
    dictionary.reconcile(&used);
    let once = dictionary.to_pretty_json().unwrap();
    dictionary.reconcile(&used);
    assert_eq!(dictionary.to_pretty_json().unwrap(), once);
    assert_eq!(once, "{\n  \"a\": 1,\n  \"b\": 2,\n  \"c\": \"@@@TODO@@@\"\n}");
}

#[test]
fn reconcile_with_no_keys_changes_nothing() {
    let mut dictionary = Dictionary::parse(b"{\"a\": 1}").unwrap();
    dictionary.reconcile(&KeySet::new());
    assert_eq!(dictionary.len(), 1);
    assert_eq!(dictionary.get("a"), Some(&Value::from(1)));
}
