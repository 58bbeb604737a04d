use datadog_exporter::order::str_lt;
use datadog_exporter::span::AttributeValue;
use datadog_exporter::tags::TagMap;

fn keys_of(map: &TagMap<u64>) -> Vec<String> {
    let mut out = Vec::new();
    let mut i = 0;
    while let Some((k, _)) = map.get_index(i) {
        out.push(k.clone());
        i += 1;
    }
    out
}

#[test]
fn keys_compare_by_their_bytes() {
    assert!(str_lt("a", "b"));
    assert!(!str_lt("b", "a"));
    assert!(!str_lt("a", "a"));
    assert!(str_lt("", "a"));
    assert!(!str_lt("a", ""));
    assert!(!str_lt("", ""));
    assert!(str_lt("ab", "abc"));
    assert!(!str_lt("abc", "ab"));
    assert!(str_lt("Z", "a"));
    assert!(str_lt("z", "é"));
    assert!(str_lt("abd", "abe"));
    assert!(!str_lt("abe", "abd"));
    assert_eq!(str_lt("http.method", "http.status"), "http.method" < "http.status");
}

#[test]
fn entries_stand_in_the_order_of_their_keys() {
    let mut map: TagMap<u64> = TagMap::new();
    for (i, k) in ["m", "z", "a", "mm", "b", ""].iter().enumerate() {
        map.insert(k.to_string(), i as u64);
    }
    assert_eq!(map.len(), 6);
    assert_eq!(keys_of(&map), vec!["", "a", "b", "m", "mm", "z"]);
    assert_eq!(map.get("mm"), Some(&3));
    assert_eq!(map.get("a"), Some(&2));
    assert_eq!(map.get("q"), None);
    assert!(map.get_index(6).is_none());
}

#[test]
fn insert_replaces_the_value_of_a_key() {
    let mut map: TagMap<String> = TagMap::new();
    map.insert("k".to_string(), "one".to_string());
    map.insert("j".to_string(), "other".to_string());
    map.insert("k".to_string(), "two".to_string());
    assert_eq!(map.len(), 2);
    assert_eq!(map.get("k"), Some(&"two".to_string()));
    assert_eq!(map.get("j"), Some(&"other".to_string()));
    let (k0, v0) = map.get_index(0).unwrap();
    assert_eq!((k0.as_str(), v0.as_str()), ("j", "other"));
}

#[test]
fn empty_map_has_nothing() {
    let map: TagMap<AttributeValue> = TagMap::new();
    assert_eq!(map.len(), 0);
    assert!(map.get_index(0).is_none());
    assert!(map.get("span.type").is_none());
}
