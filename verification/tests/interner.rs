use datadog_exporter::intern::StringInterner;

#[test]
fn new_table_is_empty() {
    let interner = StringInterner::new();
    assert_eq!(interner.len(), 0);
    assert!(interner.drain().is_empty());
}

#[test]
fn same_string_twice_gives_the_same_index() {
    let mut interner = StringInterner::new();
    let first = interner.intern("hello").unwrap();
    let second = interner.intern("hello").unwrap();
    assert_eq!(first, 0);
    assert_eq!(first, second);
    assert_eq!(interner.len(), 1);
}

#[test]
fn distinct_strings_get_sequential_indices() {
    let mut interner = StringInterner::new();
    let words = ["a", "b", "", "service", "a b", "é"];
    for (i, w) in words.iter().enumerate() {
        assert_eq!(interner.intern(w), Ok(i as u32));
    }
    assert_eq!(interner.len(), words.len() as u32);
    for (i, w) in words.iter().enumerate() {
        assert_eq!(interner.intern(w), Ok(i as u32));
    }
    assert_eq!(interner.len(), words.len() as u32);
}

#[test]
fn drain_gives_the_strings_in_the_order_of_their_indices() {
    let mut interner = StringInterner::new();
    let a = interner.intern("second-seen-later").unwrap();
    let b = interner.intern("first").unwrap();
    let c = interner.intern("second-seen-later").unwrap();
    let d = interner.intern("").unwrap();
    assert_eq!((a, b, c, d), (0, 1, 0, 2));
    let table = interner.drain();
    assert_eq!(
        table,
        vec!["second-seen-later".to_string(), "first".to_string(), String::new()]
    );
    assert_eq!(table[a as usize], "second-seen-later");
    assert_eq!(table[b as usize], "first");
}

#[test]
fn interners_do_not_share_state() {
    let mut one = StringInterner::new();
    let mut two = StringInterner::new();
    assert_eq!(one.intern("x"), Ok(0));
    assert_eq!(one.intern("y"), Ok(1));
    assert_eq!(two.intern("y"), Ok(0));
    assert_eq!(two.len(), 1);
}
