use kvstore::codec::{decode, encode, read_line, CodecError};
use kvstore::store::{KVStore, StoreError};
use serde_json::Value;

fn doc(text: &str) -> Value {
    serde_json::from_str(text).unwrap()
}

fn chars(text: &str) -> Vec<char> {
    text.chars().collect()
}

#[test]
fn create_with_key_then_conflict_keeps_value() {
    let mut s = KVStore::new();
    assert_eq!(s.create_key_with_key("a".to_string(), doc("1")), Ok(()));
    assert_eq!(
        s.create_key_with_key("a".to_string(), doc("2")),
        Err(StoreError::Conflict)
    );
    assert_eq!(s.get(&"a".to_string()), Ok(doc("1")));
    assert_eq!(s.len(), 1);
}

#[test]
fn upsert_replaces_whole_value() {
    let mut s = KVStore::new();
    s.insert("k".to_string(), doc(r#"{"x":1,"y":2}"#));
    s.insert("k".to_string(), doc(r#"{"z":3}"#));
    assert_eq!(s.get(&"k".to_string()), Ok(doc(r#"{"z":3}"#)));
    s.insert("new".to_string(), doc("true"));
    assert_eq!(s.get(&"new".to_string()), Ok(doc("true")));
    assert_eq!(s.len(), 2);
}

#[test]
fn delete_then_get_not_found() {
    let mut s = KVStore::new();
    s.insert("k".to_string(), doc("null"));
    assert_eq!(s.delete(&"k".to_string()), Ok(()));
    assert_eq!(s.get(&"k".to_string()), Err(StoreError::NotFound));
    assert_eq!(s.delete(&"k".to_string()), Err(StoreError::NotFound));
}

#[test]
fn generated_keys_are_distinct_alphanumeric() {
    let mut s = KVStore::new();
    let a = s.create_key(doc("1")).unwrap();
    let b = s.create_key(doc("2")).unwrap();
    assert_ne!(a, b);
    for k in [&a, &b] {
        assert_eq!(k.chars().count(), 8);
        assert!(k.chars().all(|c| c.is_ascii_alphanumeric()));
    }
    assert_eq!(s.get(&a), Ok(doc("1")));
    assert_eq!(s.get(&b), Ok(doc("2")));
}

#[test]
fn list_windows() {
    let mut s = KVStore::new();
    assert_eq!(s.list_keys(None, None), Err(StoreError::NotFound));
    for (k, v) in [("a", "1"), ("b", "2"), ("c", "3")] {
        s.insert(k.to_string(), doc(v));
    }
    let all = s.list_keys(None, None).unwrap();
    assert_eq!(all.len(), 3);
    let mid = s.list_keys(Some(1), Some(1)).unwrap();
    assert_eq!(mid, vec![("b".to_string(), doc("2"))]);
    let tail = s.list_keys(Some(2), Some(10)).unwrap();
    assert_eq!(tail, vec![("c".to_string(), doc("3"))]);
    assert_eq!(s.list_keys(Some(3), Some(10)), Err(StoreError::NotFound));
    assert_eq!(s.list_keys(Some(0), Some(0)), Err(StoreError::NotFound));
}

#[test]
fn encode_writes_key_bar_base64_json() {
    let mut s = KVStore::new();
    s.insert("k".to_string(), doc(r#"{"a":1}"#));
    // base64 of {"a":1}
    assert_eq!(encode(&s), Ok("k|eyJhIjoxfQ==\n".to_string()));
}

#[test]
fn read_line_cases() {
    assert_eq!(read_line(&chars("")), Ok(None));
    assert_eq!(read_line(&chars("|eyJhIjoxfQ==")), Ok(None));
    assert_eq!(read_line(&chars("k|")), Ok(None));
    assert_eq!(read_line(&chars("k")), Ok(None));
    assert_eq!(
        read_line(&chars("k|eyJhIjoxfQ==")),
        Ok(Some(("k".to_string(), doc(r#"{"a":1}"#))))
    );
    assert_eq!(
        read_line(&chars("k|\"eyJhIjoxfQ==\"")),
        Ok(Some(("k".to_string(), doc(r#"{"a":1}"#))))
    );
    assert_eq!(read_line(&chars("k|!!!")), Err(CodecError::CorruptData));
}

#[test]
fn corrupt_json_line_fails_whole_decode() {
    // "bm90IGpzb24=" is base64 of "not json"
    let text = "a|MQ==\nb|bm90IGpzb24=\n";
    assert!(matches!(decode(&chars(text)), Err(CodecError::CorruptData)));
}

#[test]
fn decode_last_line_wins_and_crlf() {
    let text = "a|MQ==\r\na|Mg==\n\nb|Mw==";
    let s = decode(&chars(text)).unwrap();
    assert_eq!(s.len(), 2);
    assert_eq!(s.get(&"a".to_string()), Ok(doc("2")));
    assert_eq!(s.get(&"b".to_string()), Ok(doc("3")));
}

#[test]
fn round_trip_through_text() {
    let mut s = KVStore::new();
    s.insert("x".to_string(), doc(r#"{"n":[1,2.5,"s|\n"],"b":null}"#));
    s.insert("y".to_string(), doc("-7"));
    let text = encode(&s).unwrap();
    let back = decode(&chars(&text)).unwrap();
    assert_eq!(back.len(), 2);
    assert_eq!(back.get(&"x".to_string()), s.get(&"x".to_string()));
    assert_eq!(back.get(&"y".to_string()), Ok(doc("-7")));
}

#[test]
fn scenario_create_list_delete_reload() {
    let mut s = KVStore::new();
    let a = s.create_key(doc(r#"{"v":"first"}"#)).unwrap();
    let b = s.create_key(doc(r#"{"v":"second"}"#)).unwrap();
    assert_ne!(a, b);
    let listed = s.list_keys(Some(0), Some(10)).unwrap();
    let keys: Vec<String> = listed.iter().map(|e| e.0.clone()).collect();
    let mut want = vec![a.clone(), b.clone()];
    want.sort();
    assert_eq!(keys, want);
    assert_eq!(s.delete(&a), Ok(()));
    assert_eq!(s.get(&a), Err(StoreError::NotFound));
    let text = encode(&s).unwrap();
    let reloaded = decode(&chars(&text)).unwrap();
    assert_eq!(reloaded.len(), 1);
    assert_eq!(reloaded.get(&b), Ok(doc(r#"{"v":"second"}"#)));
}

#[test]
fn list_in_key_order() {
    let mut s = KVStore::new();
    for k in ["delta", "alpha", "Charlie", "bravo", "alphabet"] {
        s.insert(k.to_string(), doc("0"));
    }
    let keys: Vec<String> = s.list_keys(None, None).unwrap().into_iter().map(|e| e.0).collect();
    assert_eq!(keys, vec!["Charlie", "alpha", "alphabet", "bravo", "delta"]);
}

#[test]
fn encode_lines_in_key_order() {
    let mut s = KVStore::new();
    s.insert("b".to_string(), doc("\"x\""));
    s.insert("a".to_string(), doc("1"));
    assert_eq!(encode(&s), Ok("a|MQ==\nb|Ingi\n".to_string()));
}

#[test]
fn encoding_depends_on_map_only() {
    let mut s1 = KVStore::new();
    let mut s2 = KVStore::new();
    for k in ["m", "z", "a"] {
        s1.insert(k.to_string(), doc(r#"{"k":[1,2]}"#));
    }
    for k in ["a", "m", "z"] {
        s2.insert(k.to_string(), doc(r#"{"k":[1,2]}"#));
    }
    assert_eq!(encode(&s1), encode(&s2));
}

#[test]
fn copy_keeps_entries_and_is_independent() {
    let mut s = KVStore::new();
    s.insert("b".to_string(), doc("2"));
    s.insert("a".to_string(), doc("1"));
    let mut c = s.copy();
    assert_eq!(c.list_keys(None, None), s.list_keys(None, None));
    c.insert("a".to_string(), doc("9"));
    assert_eq!(s.get(&"a".to_string()), Ok(doc("1")));
    assert_eq!(c.get(&"a".to_string()), Ok(doc("9")));
}
