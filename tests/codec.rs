use ef19_core::kv::{deserialise_kv, serialise_kv, split_on, KvMap};
use ef19_core::zip::{unzip_string, zip_string, ZipError};
use ef19_core::escape::{escaped_string, escaped_string_quotes};
use itertools::Itertools;

fn kv(pairs: &[(&str, &str)]) -> KvMap {
    let mut map = KvMap::new();
    for (k, v) in pairs {
        map.insert(k.to_string(), v.to_string());
    }
    map
}

#[test]
fn serialise() {
    let map = kv(&[("1", "2"), ("3", "4"), ("5", "6"), ("8", "shit")]);

    let serialised = serialise_kv(&map, ":");
    println!("{}", serialised);

    // there's no guarantee that the map will output in a specific order,
    // so we have to split and iterate to check
    for (k, v) in serialised.split(":").tuples() {
        if k == "1" { assert_eq!(v, "2"); }
        else if k == "3" { assert_eq!(v, "4"); }
        else if k == "5" { assert_eq!(v, "6"); }
        else if k == "8" { assert_eq!(v, "shit"); }
        else { panic!(); }
    }
}

#[test]
fn deserialise() {
    let object = "1:2:3:4:5:6:8:shit";
    let map = deserialise_kv(object, ":");
    assert_eq!(map.get("1").unwrap(), "2");
    assert_eq!(map.get("3").unwrap(), "4");
    assert_eq!(map.get("5").unwrap(), "6");
    assert_eq!(map.get("8").unwrap(), "shit");
}

#[test]
fn zip_cycle() {
    let string = "awawawawawawawawawawawawawawawawa".to_string();
    let zipped = zip_string(&string).unwrap();
    println!("{}", zipped);
    let unzipped = unzip_string(&zipped).unwrap();
    assert_eq!(string, unzipped);
}

#[test]
fn serialise_keeps_entry_order() {
    let map = kv(&[("1", "2"), ("3", "4")]);
    assert_eq!(serialise_kv(&map, ","), "1,2,3,4");
    assert_eq!(serialise_kv(&KvMap::new(), ","), "");
}

#[test]
fn deserialise_drops_odd_token() {
    let map = deserialise_kv("1,2,3", ",");
    assert_eq!(map.len(), 1);
    assert_eq!(map.get("1").unwrap(), "2");
    assert!(map.get("3").is_none());
}

#[test]
fn deserialise_later_key_wins() {
    let map = deserialise_kv("1,a,1,b", ",");
    assert_eq!(map.len(), 1);
    assert_eq!(map.get("1").unwrap(), "b");
}

#[test]
fn deserialise_empty_input() {
    let map = deserialise_kv("", ",");
    assert!(map.is_empty());
}

#[test]
fn separator_inside_value_corrupts() {
    // a value holding the separator cannot be told apart from two tokens
    let map = kv(&[("1", "a,b")]);
    let text = serialise_kv(&map, ",");
    assert_eq!(text, "1,a,b");
    let back = deserialise_kv(&text, ",");
    assert_eq!(back.get("1").unwrap(), "a");
    assert!(back.get("b").is_none());
}

#[test]
fn kv_round_trip() {
    let map = kv(&[("1", "68"), ("2", "20"), ("24", "-1"), ("k", "")]);
    let back = deserialise_kv(&serialise_kv(&map, ";;"), ";;");
    assert_eq!(back.len(), map.len());
    for (k, v) in map.entries.iter() {
        assert_eq!(back.get(k).unwrap(), v);
    }
}

#[test]
fn split_multi_char_separator() {
    let parts = split_on("a::b::::c", "::");
    assert_eq!(parts, vec!["a", "b", "", "c"]);
}

#[test]
fn split_empty_separator() {
    let parts = split_on("ab", "");
    assert_eq!(parts, vec!["", "a", "b", ""]);
}

#[test]
fn zip_round_trip_empty() {
    let zipped = zip_string("").unwrap();
    assert!(!zipped.is_empty());
    assert_eq!(unzip_string(&zipped).unwrap(), "");
}

#[test]
fn zip_round_trip_all_chars() {
    let text: String = (0u32..256).filter_map(char::from_u32).collect();
    let zipped = zip_string(&text).unwrap();
    assert_ne!(zipped, text);
    assert!(zipped.chars().all(|c| c.is_ascii_alphanumeric() || c == '-' || c == '_' || c == '='));
    assert_eq!(unzip_string(&zipped).unwrap(), text);
}

#[test]
fn unzip_bad_base64() {
    assert!(matches!(unzip_string("not base64!"), Err(ZipError::Base64(_))));
}

#[test]
fn unzip_bad_gzip() {
    // "aGVsbG8=" is base64 of "hello", which is no gzip stream
    assert!(matches!(unzip_string("aGVsbG8="), Err(ZipError::Io(_))));
}

#[test]
fn escaping_for_diagnostics() {
    assert_eq!(escaped_string(b"a\\b\t\x01"), "a\\\\b\\t\\x01");
    assert_eq!(escaped_string(b"q\"q"), "q\"q");
    assert_eq!(escaped_string_quotes(b"q\"q"), "q\\\"q");
    assert_eq!(escaped_string(&[10, 13, 255]), "\\r\\n\\xff");
}
