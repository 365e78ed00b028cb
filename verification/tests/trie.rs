use oxisql::trie::Trie;

#[test]
fn empty_trie_recalls_nothing() {
    let t = Trie::new();
    assert_eq!(t.search_all(""), Vec::<String>::new());
    assert_eq!(t.search_all("x"), Vec::<String>::new());
    assert_eq!(t.get_index("anything"), None);
}

#[test]
fn recall_is_in_insertion_order() {
    let mut t = Trie::new();
    t.insert("SELECT 1;");
    t.insert("SHOW TABLES;");
    t.insert("SELECT 2;");
    assert_eq!(
        t.search_all(""),
        vec![
            "SELECT 1;".to_string(),
            "SHOW TABLES;".to_string(),
            "SELECT 2;".to_string()
        ]
    );
}

#[test]
fn reinserting_moves_to_the_end() {
    let mut t = Trie::new();
    t.insert("a;");
    t.insert("b;");
    t.insert("a;");
    assert_eq!(t.search_all(""), vec!["b;".to_string(), "a;".to_string()]);
    assert_eq!(t.get_index("b;"), Some(1));
    assert_eq!(t.get_index("a;"), Some(2));
}

#[test]
fn recall_filters_by_prefix() {
    let mut t = Trie::new();
    t.insert("users");
    t.insert("user_id");
    t.insert("orders");
    let matches = t.search_all("user");
    assert_eq!(matches, vec!["users".to_string(), "user_id".to_string()]);
    for m in &matches {
        assert!(m.starts_with("user"));
    }
    assert_eq!(t.search_all("order"), vec!["orders".to_string()]);
    assert_eq!(t.search_all("missing"), Vec::<String>::new());
}

#[test]
fn a_stored_string_is_found_whole() {
    let mut t = Trie::new();
    t.insert("abc");
    assert_eq!(t.search_all("abc"), vec!["abc".to_string()]);
    assert_eq!(t.search_all("abcd"), Vec::<String>::new());
    assert_eq!(t.get_index("ab"), None);
    assert_eq!(t.get_index("abc"), Some(0));
}

#[test]
fn snapshot_round_trip_preserves_recall() {
    let mut t = Trie::new();
    t.insert("SELECT 1;");
    t.insert("ab;");
    t.insert("a;");
    t.insert("SELECT 1;");
    let doc = t.encode();
    let back = Trie::decode(doc.as_str()).expect("a fresh snapshot must decode");
    assert_eq!(back.search_all(""), t.search_all(""));
    assert_eq!(back.search_all("SELECT"), t.search_all("SELECT"));
    assert_eq!(back.get_index("ab;"), t.get_index("ab;"));
    assert_eq!(back.encode(), doc);
}

#[test]
fn snapshot_round_trip_of_the_empty_trie() {
    let t = Trie::new();
    let back = Trie::decode(t.encode().as_str()).expect("the empty snapshot must decode");
    assert_eq!(back.search_all(""), Vec::<String>::new());
}

#[test]
fn snapshot_round_trip_keeps_unicode() {
    let mut t = Trie::new();
    t.insert("héllo wörld;");
    t.insert("héllo;");
    let back = Trie::decode(t.encode().as_str()).unwrap();
    assert_eq!(
        back.search_all("héllo"),
        vec!["héllo wörld;".to_string(), "héllo;".to_string()]
    );
}

#[test]
fn damaged_snapshots_are_rejected() {
    assert!(Trie::decode("").is_none());
    assert!(Trie::decode("not a snapshot").is_none());
    assert!(Trie::decode("3 ").is_none());
    let mut t = Trie::new();
    t.insert("a;");
    let mut doc = t.encode();
    doc.push(' ');
    assert!(Trie::decode(doc.as_str()).is_none(), "trailing text must be rejected");
    let cut = &t.encode()[..t.encode().len() - 2];
    assert!(Trie::decode(cut).is_none(), "a truncated snapshot must be rejected");
}

#[test]
fn a_missing_store_falls_back_to_an_empty_trie() {
    // The caller substitutes a fresh trie when the store is absent or does
    // not parse; recall then yields nothing and the session proceeds.
    let fallback = Trie::decode("").unwrap_or_else(Trie::new);
    assert_eq!(fallback.search_all(""), Vec::<String>::new());
}

#[test]
fn the_empty_string_can_be_stored() {
    let mut t = Trie::new();
    t.insert("");
    t.insert("a");
    assert_eq!(t.search_all(""), vec!["".to_string(), "a".to_string()]);
    assert_eq!(t.get_index(""), Some(0));
    let back = Trie::decode(t.encode().as_str()).unwrap();
    assert_eq!(back.search_all(""), t.search_all(""));
}
