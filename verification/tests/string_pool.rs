use arandu_semantics::string_pool::{SsoString, StringId, StringPool};

#[test]
fn test_sso_inline_and_heap() {
    let s1 = SsoString::new("short");
    assert!(matches!(s1, SsoString::Inline { .. }));
    assert_eq!(s1.as_str(), "short");

    let s2 = SsoString::new("this string is definitely longer than twenty-three bytes");
    assert!(matches!(s2, SsoString::Heap(_)));
    assert_eq!(
        s2.as_str(),
        "this string is definitely longer than twenty-three bytes"
    );
}

#[test]
fn test_string_pool_intern_resolve() {
    let mut pool = StringPool::new();
    let id1 = pool.intern("hello");
    let id2 = pool.intern("world");
    let id3 = pool.intern("hello");

    assert_eq!(id1, id3);
    assert_ne!(id1, id2);
    assert_eq!(pool.len(), 2);

    assert_eq!(pool.resolve(id1), "hello");
    assert_eq!(pool.resolve(id2), "world");
}

#[test]
fn sso_boundary_at_twenty_three_bytes() {
    let exact = "abcdefghijklmnopqrstuvw";
    assert_eq!(exact.len(), 23);
    let s = SsoString::new(exact);
    assert!(matches!(s, SsoString::Inline { .. }));
    assert_eq!(s.as_str(), exact);

    let longer = "abcdefghijklmnopqrstuvwx";
    let t = SsoString::new(longer);
    assert!(matches!(t, SsoString::Heap(_)));
    assert_eq!(t.as_str(), longer);
}

#[test]
fn sso_keeps_multibyte_text() {
    let s = SsoString::new("ação");
    assert_eq!(s.as_str(), "ação");
    let empty = SsoString::new("");
    assert_eq!(empty.as_str(), "");
}

#[test]
fn pool_ids_follow_first_interning_order() {
    let mut pool = StringPool::new();
    assert!(pool.is_empty());
    assert_eq!(pool.intern("a"), StringId(0));
    assert_eq!(pool.intern("b"), StringId(1));
    assert_eq!(pool.intern("a"), StringId(0));
    assert!(!pool.is_empty());
    assert_eq!(StringId::from_usize(1).as_usize(), 1);
}

#[test]
fn default_pool_is_empty() {
    let pool = StringPool::default();
    assert!(pool.is_empty());
    assert_eq!(pool.len(), 0);
}

#[test]
fn equal_strings_give_equal_sso_values() {
    assert_eq!(SsoString::new("abc"), SsoString::new("abc"));
    assert_ne!(SsoString::new("abc"), SsoString::new("abd"));
    if let SsoString::Inline { len, data } = SsoString::new("ab") {
        assert_eq!(len, 2);
        assert!(data[2..].iter().all(|b| *b == 0));
    } else {
        panic!("short strings are stored inline");
    }
}

#[test]
fn pool_length_counts_distinct_strings() {
    let mut pool = StringPool::new();
    let words = ["a", "b", "a", "c", "b", "a"];
    let ids: Vec<StringId> = words.iter().map(|w| pool.intern(w)).collect();
    assert_eq!(pool.len(), 3);
    assert_eq!(ids[0], ids[2]);
    assert_eq!(ids[1], ids[4]);
    assert_ne!(ids[0], ids[3]);
}
