use custom_redis::value::DbValue;
use custom_redis::web::{clean_reply, json_to_db_value, key_matches, kind_label, web_args, DataQuery, JsonInput, JsonItem};

fn string_item(content: &str, text: &str) -> JsonItem {
    JsonItem { text: text.to_string(), as_str: Some(content.to_string()) }
}

fn other_item(text: &str) -> JsonItem {
    JsonItem { text: text.to_string(), as_str: None }
}

fn input(text: &str) -> JsonInput {
    JsonInput { text: text.to_string(), as_str: None, array_items: None, object_fields: None }
}

#[test]
fn json_values_become_db_values() {
    let mut arr = input("[\"a\",1,\"a\"]");
    arr.array_items = Some(vec![string_item("a", "\"a\""), other_item("1"), string_item("a", "\"a\"")]);
    match json_to_db_value("list", &arr) {
        DbValue::List(l) => assert_eq!(l, vec!["a", "1", "a"]),
        _ => panic!("not a list"),
    }
    match json_to_db_value("set", &arr) {
        DbValue::SetOf(mut s) => {
            s.sort();
            assert_eq!(s, vec!["1", "a"]);
        }
        _ => panic!("not a set"),
    }
    let mut obj = input("{\"f\":\"x\",\"g\":2}");
    obj.object_fields = Some(vec![("f".to_string(), string_item("x", "\"x\"")), ("g".to_string(), other_item("2"))]);
    match json_to_db_value("hash", &obj) {
        DbValue::Hash(mut h) => {
            h.sort();
            assert_eq!(h, vec![("f".to_string(), "x".to_string()), ("g".to_string(), "2".to_string())]);
        }
        _ => panic!("not a hash"),
    }
    match json_to_db_value("hash", &input("3")) {
        DbValue::Hash(h) => assert!(h.is_empty()),
        _ => panic!("not a hash"),
    }
    let mut s = input("\"hi\"");
    s.as_str = Some("hi".to_string());
    assert!(matches!(json_to_db_value("string", &s), DbValue::String(v) if v == "hi"));
    assert!(matches!(json_to_db_value("string", &input("42")), DbValue::String(v) if v == "42"));
}

#[test]
fn kinds_are_labelled() {
    assert_eq!(kind_label(&DbValue::String("x".into())), "String");
    assert_eq!(kind_label(&DbValue::SetOf(vec![])), "Set");
    assert_eq!(kind_label(&DbValue::Hash(vec![])), "Hash");
    assert_eq!(kind_label(&DbValue::Empty), "Empty");
}

#[test]
fn replies_are_cleaned_for_display() {
    assert_eq!(clean_reply("+PONG\r\n"), "PONG");
    assert_eq!(clean_reply("$5\r\nhello\r\n"), "5\nhello");
    assert_eq!(clean_reply(":3\r\n"), "3");
    assert_eq!(clean_reply(""), "OK");
    assert_eq!(clean_reply("-ERR x\r\n"), "-ERR x");
    assert_eq!(clean_reply("a\r\r\nb"), "a\r\nb");
}

#[test]
fn key_filter() {
    let q = DataQuery { q: Some("User".to_string()) };
    let kw = q.keyword();
    assert_eq!(kw, "user");
    assert!(key_matches(&kw, "USER:1"));
    assert!(!key_matches(&kw, "order:1"));
    let none = DataQuery { q: None };
    assert!(key_matches(&none.keyword(), "anything"));
}

#[test]
fn dashboard_command_arguments() {
    let q = Some("cats".to_string());
    let k = Some("key1".to_string());
    assert_eq!(web_args("SEARCH", &q, &k), vec!["SEARCH", "cats"]);
    assert_eq!(web_args("GET", &q, &k), vec!["GET", "key1"]);
    assert_eq!(web_args("EXPIRE", &q, &None), vec!["EXPIRE"]);
    assert_eq!(web_args("INFO", &q, &k), vec!["INFO"]);
}

#[test]
fn json_strings_are_stored_without_their_escapes() {
    let mut arr = input("[\"a\\\"b\"]");
    arr.array_items = Some(vec![string_item("a\"b", "\"a\\\"b\"")]);
    assert!(matches!(json_to_db_value("list", &arr), DbValue::List(l) if l == vec!["a\"b".to_string()]));
    let mut obj = input("{\"f\":\"x\\ny\"}");
    obj.object_fields = Some(vec![("f".to_string(), string_item("x\ny", "\"x\\ny\""))]);
    assert!(matches!(json_to_db_value("hash", &obj), DbValue::Hash(h) if h == vec![("f".to_string(), "x\ny".to_string())]));
}

#[test]
fn no_keyword_lets_every_key_pass() {
    let k = DataQuery { q: None }.keyword();
    assert_eq!(k, "");
    assert!(key_matches(&k, "Anything"));
    assert_eq!(DataQuery { q: Some("AbC".to_string()) }.keyword(), "abc");
}
